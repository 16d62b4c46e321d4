//! The switch: member interfaces, forwarding database and lifecycle flags,
//! the per-frame dispatch decision and the aging task's step.
use vstd::prelude::*;

use crate::fdb::{expiry_after, learned, swept, Fdb, MacEntry};
use crate::frame::{
    dhost, has_link_header, pushed, retargeted, shost, FrameError, FrameView, PacketClass, SkBuff,
    ETH_HLEN,
};
use crate::mac::{
    ether_addr_to_u64, is_broadcast_addr, is_ether_broadcast, is_ether_multicast,
    is_multicast_addr, mac_key,
};
use crate::netdev::NetDevice;

verus! {

/// Default: learn addresses rather than repeat every frame everywhere.
pub const HUB_MODE: bool = false;

/// Default lifetime of a learned address, in milliseconds.
pub const MAX_AGE_MSEC: u64 = 180000;

/// Default capacity of the forwarding database.
pub const MAX_FDB_ENTRIES: usize = 2048;

/// Default pause between two sweeps of the aging task, in milliseconds.
pub const MAC_EXPIRY_CHECK_TIMEOUT_MSEC: u64 = 1000;

/// Settings fixed when the switch starts. Times share one unit with the
/// `now` handed to the switch.
#[derive(Clone, Copy, PartialEq, Eq, Structural, Debug)]
pub struct SwitchConfig {
    /// Never learn; flood every frame.
    pub hub_mode: bool,
    /// How long a learned address stays valid.
    pub max_age: u64,
    /// The most addresses the forwarding database holds.
    pub fdb_capacity: usize,
    /// The aging task's pause between sweeps.
    pub sweep_interval: u64,
}

impl Default for SwitchConfig {
    fn default() -> (r: SwitchConfig)
        ensures
            r == (SwitchConfig {
                hub_mode: HUB_MODE,
                max_age: MAX_AGE_MSEC,
                fdb_capacity: MAX_FDB_ENTRIES,
                sweep_interval: MAC_EXPIRY_CHECK_TIMEOUT_MSEC,
            }),
    {
        SwitchConfig {
            hub_mode: HUB_MODE,
            max_age: MAX_AGE_MSEC,
            fdb_capacity: MAX_FDB_ENTRIES,
            sweep_interval: MAC_EXPIRY_CHECK_TIMEOUT_MSEC,
        }
    }
}

/// Why the switch could not be started.
#[derive(Clone, Copy, PartialEq, Eq, Structural, Debug)]
pub enum SwitchError {
    /// The member interface at this position of the list could not be resolved.
    UnknownInterface(usize),
}

/// What the aging task does after one step.
#[derive(Clone, Copy, PartialEq, Eq, Structural, Debug)]
pub enum AgingStep {
    /// Sleep for `delay`, then run again.
    Rearm { delay: u64 },
    /// Shutdown was requested: the task has acknowledged it and ends.
    Stopped,
}

/// The abstract value of the switch state.
pub struct SwitchView {
    pub net_devs: Seq<NetDevice>,
    pub fdb: Map<u64, MacEntry>,
    pub config: SwitchConfig,
    /// The owner asked the aging task to stop.
    pub exiting: bool,
    /// The aging task acknowledged that it stopped.
    pub stopped: bool,
}

/// The forwarding database is finite and within its capacity.
pub open spec fn view_wf(s: SwitchView) -> bool {
    s.fdb.dom().finite() && s.fdb.dom().len() <= s.config.fdb_capacity
}

/// Some member interface is `dev_in`.
pub open spec fn is_member(devs: Seq<NetDevice>, dev_in: u32) -> bool {
    exists|i: int| 0 <= i < devs.len() && devs[i].ifindex == dev_in
}

/// The interfaces a frame from `dev_in` floods to: every member but
/// `dev_in`, in membership order.
pub open spec fn flood_targets(devs: Seq<NetDevice>, dev_in: u32) -> Seq<u32> {
    devs.filter(|d: NetDevice| d.ifindex != dev_in).map_values(|d: NetDevice| d.ifindex)
}

/// The switch's own transmissions, captured again: never forwarded.
pub open spec fn is_echo(c: PacketClass) -> bool {
    c == PacketClass::Loopback || c == PacketClass::Outgoing
}

/// A frame to `dst` takes the flood path without consulting the table.
pub open spec fn floods(cfg: SwitchConfig, dst: Seq<u8>) -> bool {
    cfg.hub_mode || is_broadcast_addr(dst) || is_multicast_addr(dst)
}

/// The received frame with its link header restored.
pub open spec fn rcv_frame(f: FrameView) -> FrameView {
    pushed(f, ETH_HLEN as nat)
}

/// The frame is disposed without any transmission: an echo, a frame
/// without a whole link header, or one that is not to be flooded and
/// arrived on an interface that is not a member.
pub open spec fn rcv_dropped(s: SwitchView, f: FrameView, dev_in: u32) -> bool {
    ||| is_echo(f.pkt_type)
    ||| f.head < ETH_HLEN
    ||| !has_link_header(rcv_frame(f))
    ||| (!floods(s.config, dhost(rcv_frame(f))) && !is_member(s.net_devs, dev_in))
}

/// The frame's source address is learned: the frame is no echo, carries a
/// whole link header and arrived on a member, and hub mode is off. Where the
/// frame is going plays no part.
pub open spec fn rcv_learns(s: SwitchView, f: FrameView, dev_in: u32) -> bool {
    &&& !is_echo(f.pkt_type)
    &&& f.head >= ETH_HLEN
    &&& has_link_header(rcv_frame(f))
    &&& is_member(s.net_devs, dev_in)
    &&& !s.config.hub_mode
}

/// What is learned from a frame that arrived on `dev_in` at `now`.
pub open spec fn rcv_entry(s: SwitchView, dev_in: u32, now: u64) -> MacEntry {
    MacEntry { dev: NetDevice { ifindex: dev_in }, expires_in: expiry_after(now, s.config.max_age) }
}

/// The forwarding database after the frame.
pub open spec fn rcv_fdb(s: SwitchView, f: FrameView, dev_in: u32, now: u64) -> Map<u64, MacEntry> {
    if rcv_learns(s, f, dev_in) {
        learned(
            s.fdb,
            mac_key(shost(rcv_frame(f))),
            rcv_entry(s, dev_in, now),
            s.config.fdb_capacity as nat,
        )
    } else {
        s.fdb
    }
}

/// The interfaces the frame leaves by, in order.
pub open spec fn rcv_egress(s: SwitchView, f: FrameView, dev_in: u32, now: u64) -> Seq<u32> {
    let m = rcv_fdb(s, f, dev_in, now);
    let dst = mac_key(dhost(rcv_frame(f)));
    if rcv_dropped(s, f, dev_in) {
        Seq::empty()
    } else if !floods(s.config, dhost(rcv_frame(f))) && m.contains_key(dst) {
        seq![m[dst].dev.ifindex]
    } else {
        flood_targets(s.net_devs, dev_in)
    }
}

/// The switch state after the frame: only the forwarding database changes.
pub open spec fn rcv_state(s: SwitchView, f: FrameView, dev_in: u32, now: u64) -> SwitchView {
    SwitchView { fdb: rcv_fdb(s, f, dev_in, now), ..s }
}

/// `out` sends `f` to each interface of `egress` in turn, one entry each: a
/// copy aimed at that interface, or the error that kept the copy from being
/// made. The last one always goes out, as it is the frame itself.
pub open spec fn fanned_out(out: Seq<Result<SkBuff, FrameError>>, f: FrameView, egress: Seq<u32>) -> bool {
    &&& out.len() == egress.len()
    &&& forall|i: int|
        0 <= i < out.len() ==> (#[trigger] out[i] matches Ok(c) ==> c@ == retargeted(f, egress[i]))
    &&& out.len() > 0 ==> out.last() is Ok
}

/// The switch state after a sweep at `now`.
pub open spec fn swept_state(s: SwitchView, now: u64, force: bool) -> SwitchView {
    SwitchView { fdb: swept(s.fdb, now, force), ..s }
}

/// The switch state after one step of the aging task at `now`.
pub open spec fn aging_state(s: SwitchView, now: u64) -> SwitchView {
    if s.exiting {
        SwitchView { stopped: true, ..s }
    } else {
        swept_state(s, now, false)
    }
}

/// What the aging task does after one step.
pub open spec fn aging_next(s: SwitchView) -> AgingStep {
    if s.exiting {
        AgingStep::Stopped
    } else {
        AgingStep::Rearm { delay: s.config.sweep_interval }
    }
}

/// Sends `skb` out of `dev`: appends it, aimed at `dev`, to `out`.
fn xmit(out: &mut Vec<Result<SkBuff, FrameError>>, skb: SkBuff, dev: u32)
    ensures
        final(out)@.len() == old(out)@.len() + 1,
        forall|i: int| 0 <= i < old(out)@.len() ==> final(out)@[i] == old(out)@[i],
        final(out)@.last() matches Ok(c) && c@ == retargeted(skb@, dev),
{
    let mut skb = skb;
    skb.set_dev(dev);
    out.push(Ok(skb));
}

/// The shared switch state. The owner holds it under one lock; every
/// method here runs with that lock held.
pub struct SwitchState {
    net_devs: Vec<NetDevice>,
    fdb: Fdb,
    config: SwitchConfig,
    exiting: bool,
    stopped: bool,
}

impl View for SwitchState {
    type V = SwitchView;

    closed spec fn view(&self) -> SwitchView {
        SwitchView {
            net_devs: self.net_devs@,
            fdb: self.fdb@,
            config: self.config,
            exiting: self.exiting,
            stopped: self.stopped,
        }
    }
}

impl SwitchState {
    pub closed spec fn wf(&self) -> bool {
        self.fdb.wf() && self.fdb.cap() == self.config.fdb_capacity
    }

    /// A well-formed state has a finite table within its capacity.
    pub proof fn lemma_wf(&self)
        requires
            self.wf(),
        ensures
            view_wf(self@),
    {
        self.fdb.lemma_bounded();
    }

    /// A switch over the interfaces `net_devs`, with nothing learned yet.
    pub fn new(net_devs: Vec<NetDevice>, config: SwitchConfig) -> (r: SwitchState)
        ensures
            r.wf(),
            r@ == (SwitchView {
                net_devs: net_devs@,
                fdb: Map::empty(),
                config,
                exiting: false,
                stopped: false,
            }),
    {
        SwitchState {
            net_devs,
            fdb: Fdb::new(config.fdb_capacity),
            config,
            exiting: false,
            stopped: false,
        }
    }

    /// A switch over the interfaces that the registry resolved, in the order
    /// they were named; fails on the first name it could not resolve.
    pub fn init(resolved: Vec<Option<NetDevice>>, config: SwitchConfig) -> (r: Result<
        SwitchState,
        SwitchError,
    >)
        ensures
            r is Ok <==> forall|i: int| 0 <= i < resolved@.len() ==> resolved@[i] is Some,
            r matches Err(SwitchError::UnknownInterface(i)) ==> {
                &&& i < resolved@.len()
                &&& resolved@[i as int] is None
                &&& forall|j: int| 0 <= j < i ==> resolved@[j] is Some
            },
            r matches Ok(s) ==> {
                &&& s.wf()
                &&& s@.net_devs.len() == resolved@.len()
                &&& forall|i: int|
                    0 <= i < resolved@.len() ==> resolved@[i] == Some(#[trigger] s@.net_devs[i])
                &&& s@.fdb == Map::<u64, MacEntry>::empty()
                &&& s@.config == config
                &&& !s@.exiting
                &&& !s@.stopped
            },
    {
        let mut devs: Vec<NetDevice> = Vec::new();
        let mut i: usize = 0;
        while i < resolved.len()
            invariant
                i <= resolved@.len(),
                devs@.len() == i,
                forall|j: int| 0 <= j < i ==> resolved@[j] == Some(#[trigger] devs@[j]),
                forall|j: int| 0 <= j < i ==> #[trigger] resolved@[j] is Some,
            decreases resolved@.len() - i,
        {
            match resolved[i] {
                Some(d) => devs.push(d),
                None => {
                    assert(resolved@[i as int] is None);
                    return Err(SwitchError::UnknownInterface(i));
                },
            }
            i = i + 1;
        }
        Ok(SwitchState::new(devs, config))
    }

    pub fn config(&self) -> (r: SwitchConfig)
        ensures
            r == self@.config,
    {
        self.config
    }

    /// The member interfaces, in membership order.
    pub fn net_devs(&self) -> (r: &Vec<NetDevice>)
        ensures
            r@ == self@.net_devs,
    {
        &self.net_devs
    }

    /// The forwarding database.
    pub fn fdb(&self) -> (r: &Fdb)
        ensures
            r@ == self@.fdb,
            self.wf() ==> r.wf(),
    {
        &self.fdb
    }

    /// The member handle for `dev_in`, if `dev_in` is a member.
    fn find_dev(&self, dev_in: u32) -> (r: Option<NetDevice>)
        ensures
            r is Some <==> is_member(self@.net_devs, dev_in),
            r matches Some(d) ==> d.ifindex == dev_in,
    {
        let mut i: usize = 0;
        while i < self.net_devs.len()
            invariant
                i <= self.net_devs@.len(),
                forall|j: int| 0 <= j < i ==> self.net_devs@[j].ifindex != dev_in,
            decreases self.net_devs@.len() - i,
        {
            if self.net_devs[i].get_dev() == dev_in {
                return Some(self.net_devs[i]);
            }
            i = i + 1;
        }
        None
    }

    /// The interfaces a frame from `dev_in` floods to.
    pub fn flood_targets(&self, dev_in: u32) -> (r: Vec<u32>)
        ensures
            r@ == flood_targets(self@.net_devs, dev_in),
    {
        let ghost devs = self.net_devs@;
        let mut r: Vec<u32> = Vec::new();
        let mut i: usize = 0;
        while i < self.net_devs.len()
            invariant
                devs == self.net_devs@,
                i <= devs.len(),
                r@ == flood_targets(devs.subrange(0, i as int), dev_in),
            decreases devs.len() - i,
        {
            let d = self.net_devs[i];
            let ghost before = r@;
            if d.get_dev() != dev_in {
                r.push(d.get_dev());
            }
            proof {
                let s0 = devs.subrange(0, i as int);
                let s1 = devs.subrange(0, i + 1);
                let pred = |x: NetDevice| x.ifindex != dev_in;
                assert(s1.drop_last() =~= s0);
                assert(s1.last() == d);
                reveal(Seq::filter);
                if d.ifindex != dev_in {
                    assert(s1.filter(pred) == s0.filter(pred).push(d));
                } else {
                    assert(s1.filter(pred) == s0.filter(pred));
                }
                assert(r@ =~= flood_targets(s1, dev_in));
            }
            i = i + 1;
        }
        assert(devs.subrange(0, devs.len() as int) =~= devs);
        r
    }

    /// Floods `skb`, which arrived on `dev_in`, to every other member: a copy
    /// to each but the last, the frame itself to the last; with no other
    /// member the frame is disposed.
    pub fn flood(&self, skb: SkBuff, dev_in: u32) -> (out: Vec<Result<SkBuff, FrameError>>)
        ensures
            fanned_out(out@, skb@, flood_targets(self@.net_devs, dev_in)),
    {
        let targets = self.flood_targets(dev_in);
        let mut out: Vec<Result<SkBuff, FrameError>> = Vec::new();
        let n = targets.len();
        if n == 0 {
            return out;
        }
        let mut i: usize = 0;
        while i + 1 < n
            invariant
                n == targets@.len(),
                i < n,
                out@.len() == i,
                forall|j: int|
                    0 <= j < i ==> (#[trigger] out@[j] matches Ok(c) ==> c@ == retargeted(
                        skb@,
                        targets@[j],
                    )),
            decreases n - i,
        {
            match skb.try_clone() {
                Ok(nskb) => xmit(&mut out, nskb, targets[i]),
                Err(e) => out.push(Err(e)),
            }
            i = i + 1;
        }
        xmit(&mut out, skb, targets[n - 1]);
        out
    }

    /// The dispatch decision for `skb`, captured on `dev_in` at `now`:
    /// learns the source address of every frame that `rcv_learns` admits,
    /// whatever its destination, then returns what leaves by which interface.
    pub fn eth_rcv(&mut self, skb: SkBuff, dev_in: u32, now: u64) -> (out: Vec<
        Result<SkBuff, FrameError>,
    >)
        requires
            old(self).wf(),
        ensures
            final(self).wf(),
            final(self)@ == rcv_state(old(self)@, skb@, dev_in, now),
            fanned_out(out@, rcv_frame(skb@), rcv_egress(old(self)@, skb@, dev_in, now)),
    {
        let mut skb = skb;
        let pkt_type = skb.get_pkt_type();
        // the switch's own retransmissions come back through the capture hook
        if pkt_type == PacketClass::Loopback || pkt_type == PacketClass::Outgoing {
            return Vec::new();
        }
        if !skb.push(ETH_HLEN) {
            return Vec::new();
        }
        if ETH_HLEN > skb.data().len() - skb.head() {
            return Vec::new();
        }
        let ether_dhost = match skb.get_ether_dhost() {
            Some(a) => a,
            None => {
                return Vec::new();
            },
        };
        let ether_shost = match skb.get_ether_shost() {
            Some(a) => a,
            None => {
                return Vec::new();
            },
        };
        // learn the source first, whatever the destination
        let dev_rcvd = self.find_dev(dev_in);
        if !self.config.hub_mode {
            match dev_rcvd {
                Some(d) => {
                    let mac_en = MacEntry::new(d, now, self.config.max_age);
                    let _ = self.fdb.upsert(ether_addr_to_u64(&ether_shost), mac_en);
                },
                None => {},
            }
        }
        if self.config.hub_mode || is_ether_broadcast(&ether_dhost) || is_ether_multicast(
            &ether_dhost,
        ) {
            return self.flood(skb, dev_in);
        }
        match dev_rcvd {
            Some(_) => {},
            None => {
                return Vec::new();
            },
        }
        match self.fdb.get(ether_addr_to_u64(&ether_dhost)) {
            Some(e) => {
                let mut out: Vec<Result<SkBuff, FrameError>> = Vec::new();
                xmit(&mut out, skb, e.get_dev());
                out
            },
            None => self.flood(skb, dev_in),
        }
    }

    /// Sweeps the forwarding database at `now`; with `force`, empties it.
    pub fn expire(&mut self, now: u64, force: bool)
        requires
            old(self).wf(),
        ensures
            final(self).wf(),
            final(self)@ == swept_state(old(self)@, now, force),
    {
        self.fdb.expire(now, force);
    }

    /// One step of the aging task at `now`: sweeps and asks to run again, or,
    /// once shutdown was requested, acknowledges it without sweeping.
    pub fn run_aging(&mut self, now: u64) -> (r: AgingStep)
        requires
            old(self).wf(),
        ensures
            final(self).wf(),
            final(self)@ == aging_state(old(self)@, now),
            r == aging_next(old(self)@),
    {
        if !self.exiting {
            self.expire(now, false);
            AgingStep::Rearm { delay: self.config.sweep_interval }
        } else {
            self.stopped = true;
            AgingStep::Stopped
        }
    }

    /// Asks the aging task to stop at its next step.
    pub fn request_shutdown(&mut self)
        requires
            old(self).wf(),
        ensures
            final(self).wf(),
            final(self)@ == (SwitchView { exiting: true, ..old(self)@ }),
    {
        self.exiting = true;
    }

    /// The aging task acknowledged shutdown.
    pub fn is_stopped(&self) -> (r: bool)
        ensures
            r == self@.stopped,
    {
        self.stopped
    }

    /// Shutdown was requested.
    pub fn is_exiting(&self) -> (r: bool)
        ensures
            r == self@.exiting,
    {
        self.exiting
    }
}

} // verus!
