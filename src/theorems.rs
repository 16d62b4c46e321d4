//! Laws of the switch, stated over the spec functions that the executable
//! contracts use.
use vstd::prelude::*;

use crate::fdb::{expiry_after, learned, swept, MacEntry};
use crate::frame::{dhost, has_link_header, shost, FrameError, FrameView, SkBuff, ETH_HLEN};
use crate::mac::{is_broadcast_addr, is_multicast_addr, mac_key};
use crate::netdev::NetDevice;
use crate::switch::{
    aging_next, aging_state, fanned_out, flood_targets, floods, is_echo, is_member, rcv_dropped,
    rcv_egress, rcv_entry, rcv_fdb, rcv_frame, rcv_learns, rcv_state, view_wf, AgingStep, SwitchView,
};

verus! {

/// Something that happens to the switch state under its lock.
pub enum SwitchEvent {
    /// A frame captured on `dev_in` at `now` is dispatched.
    Frame { f: FrameView, dev_in: u32, now: u64 },
    /// The aging task runs one step at `now`.
    Aging { now: u64 },
}

/// The state after one event.
pub open spec fn step(s: SwitchView, e: SwitchEvent) -> SwitchView {
    match e {
        SwitchEvent::Frame { f, dev_in, now } => rcv_state(s, f, dev_in, now),
        SwitchEvent::Aging { now } => aging_state(s, now),
    }
}

/// The state after the events, in order.
pub open spec fn run(s: SwitchView, evs: Seq<SwitchEvent>) -> SwitchView
    decreases evs.len(),
{
    if evs.len() == 0 {
        s
    } else {
        step(run(s, evs.drop_last()), evs.last())
    }
}

/// No event changes the members, the settings or a raised shutdown flag.
pub proof fn lemma_run_keeps_setup(s: SwitchView, evs: Seq<SwitchEvent>)
    ensures
        run(s, evs).net_devs == s.net_devs,
        run(s, evs).config == s.config,
        s.exiting ==> run(s, evs).exiting,
        s.stopped ==> run(s, evs).stopped,
    decreases evs.len(),
{
    if evs.len() > 0 {
        lemma_run_keeps_setup(s, evs.drop_last());
    }
}

/// `addr` is learned on `dev` and stays valid at least until `until`.
pub open spec fn holds_entry(s: SwitchView, addr: u64, dev: u32, until: u64) -> bool {
    &&& s.fdb.contains_key(addr)
    &&& s.fdb[addr].dev.ifindex == dev
    &&& s.fdb[addr].expires_in >= until
}

/// Every frame of `evs` from `addr` that is learned arrives on `dev` no
/// earlier than `t`, and every aging step runs before `until`.
pub open spec fn only_from(
    s: SwitchView,
    evs: Seq<SwitchEvent>,
    addr: u64,
    dev: u32,
    t: u64,
    until: u64,
) -> bool {
    forall|i: int|
        0 <= i < evs.len() ==> match #[trigger] evs[i] {
            SwitchEvent::Frame { f, dev_in, now } => (rcv_learns(s, f, dev_in) && mac_key(
                shost(rcv_frame(f)),
            ) == addr) ==> (dev_in == dev && now >= t),
            SwitchEvent::Aging { now } => now < until,
        }
}

proof fn lemma_entry_kept(
    s: SwitchView,
    evs: Seq<SwitchEvent>,
    addr: u64,
    dev: u32,
    t: u64,
)
    requires
        holds_entry(s, addr, dev, expiry_after(t, s.config.max_age)),
        only_from(s, evs, addr, dev, t, expiry_after(t, s.config.max_age)),
    ensures
        holds_entry(run(s, evs), addr, dev, expiry_after(t, s.config.max_age)),
    decreases evs.len(),
{
    let until = expiry_after(t, s.config.max_age);
    if evs.len() > 0 {
        let pre = evs.drop_last();
        assert forall|i: int| 0 <= i < pre.len() implies match #[trigger] pre[i] {
            SwitchEvent::Frame { f, dev_in, now } => (rcv_learns(s, f, dev_in) && mac_key(
                shost(rcv_frame(f)),
            ) == addr) ==> (dev_in == dev && now >= t),
            SwitchEvent::Aging { now } => now < until,
        } by {
            assert(pre[i] == evs[i]);
        }
        lemma_entry_kept(s, pre, addr, dev, t);
        lemma_run_keeps_setup(s, pre);
        let st = run(s, pre);
        assert(evs[evs.len() - 1] == evs.last());
        match evs.last() {
            SwitchEvent::Frame { f, dev_in, now } => {
                assert(rcv_learns(st, f, dev_in) == rcv_learns(s, f, dev_in));
            },
            SwitchEvent::Aging { now } => {},
        }
    }
}

/// Learning convergence: once a frame from `a` arrived on member `dev` at
/// `t` (whatever its destination; not an echo, with a whole link header,
/// hub mode off) while the table had room for `a`, then, as long as the
/// frames from `a` that are learned arrive only on `dev` and the aging task
/// runs before `a`'s entry expires, a later frame addressed to unicast `a`
/// (from another address) that arrives on a member leaves by `dev` alone.
pub proof fn lemma_learning_convergence(
    s: SwitchView,
    a: Seq<u8>,
    dev: u32,
    f1: FrameView,
    t: u64,
    evs: Seq<SwitchEvent>,
    f2: FrameView,
    dev2: u32,
    t2: u64,
)
    requires
        !s.config.hub_mode,
        !is_echo(f1.pkt_type),
        f1.head >= ETH_HLEN,
        has_link_header(rcv_frame(f1)),
        is_member(s.net_devs, dev),
        shost(rcv_frame(f1)) == a,
        s.fdb.contains_key(mac_key(a)) || s.fdb.dom().len() < s.config.fdb_capacity,
        only_from(
            rcv_state(s, f1, dev, t),
            evs,
            mac_key(a),
            dev,
            t,
            expiry_after(t, s.config.max_age),
        ),
        !is_broadcast_addr(a),
        !is_multicast_addr(a),
        !is_echo(f2.pkt_type),
        f2.head >= ETH_HLEN,
        has_link_header(rcv_frame(f2)),
        is_member(s.net_devs, dev2),
        dhost(rcv_frame(f2)) == a,
        mac_key(shost(rcv_frame(f2))) != mac_key(a),
    ensures
        rcv_egress(run(rcv_state(s, f1, dev, t), evs), f2, dev2, t2) == seq![dev],
{
    let s1 = rcv_state(s, f1, dev, t);
    assert(holds_entry(s1, mac_key(a), dev, expiry_after(t, s.config.max_age)));
    lemma_entry_kept(s1, evs, mac_key(a), dev, t);
    lemma_run_keeps_setup(s1, evs);
    let st = run(s1, evs);
    assert(rcv_learns(st, f2, dev2));
    let m = rcv_fdb(st, f2, dev2, t2);
    assert(m.contains_key(mac_key(a)) && m[mac_key(a)].dev.ifindex == dev);
}

/// A sweep at `now` leaves no entry that is expired at `now`.
pub proof fn lemma_sweep_drops_expired(m: Map<u64, MacEntry>, now: u64, force: bool, k: u64)
    requires
        m.contains_key(k),
        m[k].expires_in <= now,
    ensures
        !swept(m, now, force).contains_key(k),
{
}

/// Expiry: an address learned at `t` is gone after a sweep at any time from
/// `t + max_age` on, and a frame to it from another address (not an echo,
/// with a whole link header, arrived on a member) is then flooded. Lookups
/// do not look at expiry: until that sweep runs the entry still steers
/// frames (see `lemma_stale_entry_steers`).
pub proof fn lemma_expiry(
    s: SwitchView,
    f: FrameView,
    dev: u32,
    t: u64,
    now: u64,
    f2: FrameView,
    dev2: u32,
    t2: u64,
)
    requires
        rcv_learns(s, f, dev),
        !s.exiting,
        now >= t + s.config.max_age,
        rcv_learns(s, f2, dev2),
        dhost(rcv_frame(f2)) == shost(rcv_frame(f)),
        mac_key(shost(rcv_frame(f2))) != mac_key(shost(rcv_frame(f))),
    ensures
        !aging_state(rcv_state(s, f, dev, t), now).fdb.contains_key(mac_key(shost(rcv_frame(f)))),
        rcv_egress(aging_state(rcv_state(s, f, dev, t), now), f2, dev2, t2) == flood_targets(
            s.net_devs,
            dev2,
        ),
{
    let k = mac_key(shost(rcv_frame(f)));
    let s1 = rcv_state(s, f, dev, t);
    let s2 = aging_state(s1, now);
    assert(s1.fdb.contains_key(k) ==> s1.fdb[k].expires_in <= now) by {
        if s1.fdb.contains_key(k) && !s.fdb.contains_key(k) {
            assert(s1.fdb[k].expires_in == expiry_after(t, s.config.max_age));
        }
        if s.fdb.contains_key(k) {
            assert(s1.fdb[k].expires_in == expiry_after(t, s.config.max_age));
        }
    }
    assert(!s2.fdb.contains_key(k));
    assert(rcv_learns(s2, f2, dev2));
    let m = rcv_fdb(s2, f2, dev2, t2);
    assert(!m.contains_key(k));
}

/// Lookups ignore expiry: an entry for a frame's destination steers the
/// frame to its interface even when it expired at or before `now`, until a
/// sweep removes it.
pub proof fn lemma_stale_entry_steers(s: SwitchView, f: FrameView, dev_in: u32, now: u64)
    requires
        !rcv_dropped(s, f, dev_in),
        !floods(s.config, dhost(rcv_frame(f))),
        s.fdb.contains_key(mac_key(dhost(rcv_frame(f)))),
        mac_key(shost(rcv_frame(f))) != mac_key(dhost(rcv_frame(f))),
    ensures
        rcv_egress(s, f, dev_in, now) == seq![s.fdb[mac_key(dhost(rcv_frame(f)))].dev.ifindex],
{
}

/// At capacity, a frame from an address the table does not hold changes
/// nothing in the table, and is still forwarded as the table directs: to
/// the destination's interface when it is known, else flooded.
pub proof fn lemma_full_table(s: SwitchView, f: FrameView, dev_in: u32, now: u64)
    requires
        view_wf(s),
        s.fdb.dom().len() == s.config.fdb_capacity,
        !s.fdb.contains_key(mac_key(shost(rcv_frame(f)))),
    ensures
        rcv_state(s, f, dev_in, now) == s,
        !rcv_dropped(s, f, dev_in) ==> rcv_egress(s, f, dev_in, now) == if !floods(
            s.config,
            dhost(rcv_frame(f)),
        ) && s.fdb.contains_key(mac_key(dhost(rcv_frame(f)))) {
            seq![s.fdb[mac_key(dhost(rcv_frame(f)))].dev.ifindex]
        } else {
            flood_targets(s.net_devs, dev_in)
        },
{
    assert(rcv_fdb(s, f, dev_in, now) == s.fdb);
    assert(rcv_state(s, f, dev_in, now) =~= s);
}

/// Capacity: whatever frames and aging steps happen, the table stays
/// finite and never holds more than `fdb_capacity` entries.
pub proof fn lemma_capacity_over_run(s: SwitchView, evs: Seq<SwitchEvent>)
    requires
        view_wf(s),
    ensures
        view_wf(run(s, evs)),
    decreases evs.len(),
{
    if evs.len() > 0 {
        let pre = evs.drop_last();
        lemma_capacity_over_run(s, pre);
        lemma_run_keeps_setup(s, pre);
        let st = run(s, pre);
        match evs.last() {
            SwitchEvent::Frame { f, dev_in, now } => {
                if rcv_learns(st, f, dev_in) {
                    let k = mac_key(shost(rcv_frame(f)));
                    let e = rcv_entry(st, dev_in, now);
                    if st.fdb.contains_key(k) || st.fdb.dom().len() < st.config.fdb_capacity {
                        assert(st.fdb.insert(k, e).dom() == st.fdb.dom().insert(k));
                    }
                }
            },
            SwitchEvent::Aging { now } => {
                if !st.exiting {
                    let m = swept(st.fdb, now, false);
                    assert(m.dom().subset_of(st.fdb.dom()));
                    vstd::set_lib::lemma_len_subset(m.dom(), st.fdb.dom());
                }
            },
        }
    }
}

/// What each frame event of `evs` would teach the table: its source key
/// and the entry for its interface and time.
pub open spec fn frame_items(s: SwitchView, evs: Seq<SwitchEvent>) -> Seq<(u64, MacEntry)> {
    evs.map_values(
        |e: SwitchEvent|
            match e {
                SwitchEvent::Frame { f, dev_in, now } => (
                    mac_key(shost(rcv_frame(f))),
                    rcv_entry(s, dev_in, now),
                ),
                SwitchEvent::Aging { now } => (0u64, rcv_entry(s, 0, now)),
            },
    )
}

/// Every event of `evs` is a frame whose source is learned.
pub open spec fn all_learned_frames(s: SwitchView, evs: Seq<SwitchEvent>) -> bool {
    forall|i: int|
        0 <= i < evs.len() ==> match #[trigger] evs[i] {
            SwitchEvent::Frame { f, dev_in, now } => rcv_learns(s, f, dev_in),
            SwitchEvent::Aging { now } => false,
        }
}

proof fn lemma_run_is_learn_all(s: SwitchView, evs: Seq<SwitchEvent>)
    requires
        all_learned_frames(s, evs),
    ensures
        run(s, evs).fdb == learn_all(s.fdb, frame_items(s, evs), s.config.fdb_capacity as nat),
    decreases evs.len(),
{
    if evs.len() > 0 {
        let pre = evs.drop_last();
        assert forall|i: int| 0 <= i < pre.len() implies match #[trigger] pre[i] {
            SwitchEvent::Frame { f, dev_in, now } => rcv_learns(s, f, dev_in),
            SwitchEvent::Aging { now } => false,
        } by {
            assert(pre[i] == evs[i]);
        }
        lemma_run_is_learn_all(s, pre);
        lemma_run_keeps_setup(s, pre);
        assert(frame_items(s, evs).drop_last() =~= frame_items(s, pre));
        assert(evs[evs.len() - 1] == evs.last());
        let st = run(s, pre);
        match evs.last() {
            SwitchEvent::Frame { f, dev_in, now } => {
                assert(rcv_learns(st, f, dev_in) == rcv_learns(s, f, dev_in));
                assert(rcv_entry(st, dev_in, now) == rcv_entry(s, dev_in, now));
            },
            SwitchEvent::Aging { now } => {},
        }
    }
}

/// Capacity at the switch: a run of frames whose sources are learned, all
/// pairwise distinct and new to the table, offered more addresses than the
/// table has room for, ends with the table exactly full; the entries held
/// before stay as they were.
pub proof fn lemma_capacity_fills(s: SwitchView, evs: Seq<SwitchEvent>)
    requires
        view_wf(s),
        all_learned_frames(s, evs),
        forall|i: int, j: int|
            0 <= i < j < evs.len() ==> frame_items(s, evs)[i].0 != frame_items(s, evs)[j].0,
        forall|i: int| 0 <= i < evs.len() ==> !s.fdb.contains_key(#[trigger] frame_items(s, evs)[i].0),
        s.fdb.dom().len() + evs.len() >= s.config.fdb_capacity,
    ensures
        run(s, evs).fdb.dom().len() == s.config.fdb_capacity,
        forall|k: u64| s.fdb.contains_key(k) ==> #[trigger] run(s, evs).fdb.contains_key(k)
            && run(s, evs).fdb[k] == s.fdb[k],
{
    lemma_run_is_learn_all(s, evs);
    lemma_capacity_bound(s.fdb, frame_items(s, evs), s.config.fdb_capacity as nat);
}

/// Members are told apart by their interface index.
pub open spec fn distinct_devs(devs: Seq<NetDevice>) -> bool {
    forall|i: int, j: int|
        0 <= i < devs.len() && 0 <= j < devs.len() && i != j ==> devs[i].ifindex != devs[j].ifindex
}

proof fn lemma_flood_targets(devs: Seq<NetDevice>, dev_in: u32)
    ensures
        forall|x: u32|
            flood_targets(devs, dev_in).contains(x) <==> (x != dev_in && is_member(devs, x)),
        distinct_devs(devs) ==> flood_targets(devs, dev_in).no_duplicates(),
        distinct_devs(devs) && is_member(devs, dev_in) ==> flood_targets(devs, dev_in).len()
            == devs.len() - 1,
        !is_member(devs, dev_in) ==> flood_targets(devs, dev_in).len() == devs.len(),
    decreases devs.len(),
{
    if devs.len() == 0 {
        reveal(Seq::filter);
        assert(flood_targets(devs, dev_in) =~= Seq::<u32>::empty());
    } else {
        let pre = devs.drop_last();
        let d = devs.last();
        lemma_flood_targets(pre, dev_in);
        let pred = |x: NetDevice| x.ifindex != dev_in;
        reveal(Seq::filter);
        let ft = flood_targets(devs, dev_in);
        let fp = flood_targets(pre, dev_in);
        if d.ifindex != dev_in {
            assert(devs.filter(pred) == pre.filter(pred).push(d));
            assert(ft =~= fp.push(d.ifindex));
        } else {
            assert(devs.filter(pred) == pre.filter(pred));
            assert(ft =~= fp);
        }
        assert(forall|i: int| 0 <= i < pre.len() ==> pre[i] == devs[i]);
        assert forall|x: u32| ft.contains(x) <==> (x != dev_in && is_member(devs, x)) by {
            if is_member(devs, x) {
                let i = choose|i: int| 0 <= i < devs.len() && devs[i].ifindex == x;
                if i < pre.len() {
                    assert(is_member(pre, x));
                }
            }
            if is_member(pre, x) {
                let i = choose|i: int| 0 <= i < pre.len() && pre[i].ifindex == x;
                assert(devs[i].ifindex == x);
            }
            if d.ifindex != dev_in {
                assert(ft.contains(x) <==> (fp.contains(x) || x == d.ifindex)) by {
                    if fp.contains(x) {
                        let i = choose|i: int| 0 <= i < fp.len() && fp[i] == x;
                        assert(ft[i] == x);
                    }
                    if x == d.ifindex {
                        assert(ft[fp.len() as int] == x);
                    }
                    if ft.contains(x) {
                        let i = choose|i: int| 0 <= i < ft.len() && ft[i] == x;
                        if i < fp.len() {
                            assert(fp[i] == x);
                        }
                    }
                }
                assert(devs[devs.len() - 1].ifindex == d.ifindex);
            }
        }
        if distinct_devs(devs) {
            assert(distinct_devs(pre));
            assert(!is_member(pre, d.ifindex)) by {
                if is_member(pre, d.ifindex) {
                    let i = choose|i: int| 0 <= i < pre.len() && pre[i].ifindex == d.ifindex;
                    assert(devs[i].ifindex == devs[devs.len() - 1].ifindex);
                }
            }
            if d.ifindex != dev_in {
                assert(!fp.contains(d.ifindex));
            }
            if is_member(devs, dev_in) && d.ifindex != dev_in {
                let i = choose|i: int| 0 <= i < devs.len() && devs[i].ifindex == dev_in;
                assert(i < pre.len());
                assert(is_member(pre, dev_in));
            }
            if d.ifindex == dev_in {
                assert(!is_member(pre, dev_in));
            }
        }
        if !is_member(devs, dev_in) {
            assert(devs[devs.len() - 1].ifindex != dev_in);
            assert(!is_member(pre, dev_in)) by {
                if is_member(pre, dev_in) {
                    let i = choose|i: int| 0 <= i < pre.len() && pre[i].ifindex == dev_in;
                    assert(devs[i].ifindex == dev_in);
                }
            }
        }
    }
}

/// Flood completeness: with `n` distinct members, a flooded frame that
/// arrived on member `dev_in` goes out `n - 1` times, once by each other
/// member and never by `dev_in`.
pub proof fn lemma_flood_completeness(s: SwitchView, f: FrameView, dev_in: u32, now: u64)
    requires
        distinct_devs(s.net_devs),
        is_member(s.net_devs, dev_in),
        !rcv_dropped(s, f, dev_in),
        floods(s.config, dhost(rcv_frame(f))),
    ensures
        rcv_egress(s, f, dev_in, now).len() == s.net_devs.len() - 1,
        rcv_egress(s, f, dev_in, now).no_duplicates(),
        forall|i: int|
            0 <= i < s.net_devs.len() && s.net_devs[i].ifindex != dev_in ==> rcv_egress(
                s,
                f,
                dev_in,
                now,
            ).contains(#[trigger] s.net_devs[i].ifindex),
        !rcv_egress(s, f, dev_in, now).contains(dev_in),
{
    lemma_flood_targets(s.net_devs, dev_in);
    assert forall|i: int|
        0 <= i < s.net_devs.len() && s.net_devs[i].ifindex != dev_in implies rcv_egress(
        s,
        f,
        dev_in,
        now,
    ).contains(#[trigger] s.net_devs[i].ifindex) by {
        assert(is_member(s.net_devs, s.net_devs[i].ifindex));
    }
}

/// Every frame that a fan-out sends carries the same bytes from the same
/// cursor as the frame it was made from, aimed at its own interface.
pub proof fn lemma_fanout_identical(
    out: Seq<Result<SkBuff, FrameError>>,
    f: FrameView,
    egress: Seq<u32>,
)
    requires
        fanned_out(out, f, egress),
    ensures
        forall|i: int|
            0 <= i < out.len() ==> (#[trigger] out[i] matches Ok(c) ==> {
                &&& c@.data == f.data
                &&& c@.head == f.head
                &&& c@.pkt_type == f.pkt_type
                &&& c@.dev == Some(egress[i])
            }),
{
}

/// Self-loop suppression: a looped-back or locally sent frame goes nowhere
/// and changes nothing.
pub proof fn lemma_echo_suppressed(s: SwitchView, f: FrameView, dev_in: u32, now: u64)
    requires
        is_echo(f.pkt_type),
    ensures
        rcv_egress(s, f, dev_in, now) == Seq::<u32>::empty(),
        rcv_state(s, f, dev_in, now) == s,
{
}

/// The table after learning each `(address, entry)` of `items` in turn.
pub open spec fn learn_all(m: Map<u64, MacEntry>, items: Seq<(u64, MacEntry)>, cap: nat) -> Map<
    u64,
    MacEntry,
>
    decreases items.len(),
{
    if items.len() == 0 {
        m
    } else {
        learned(learn_all(m, items.drop_last(), cap), items.last().0, items.last().1, cap)
    }
}

/// Capacity: learning never takes a table within its capacity past it,
/// and never drops or changes an entry of another address.
pub proof fn lemma_capacity_kept(m: Map<u64, MacEntry>, items: Seq<(u64, MacEntry)>, cap: nat)
    requires
        m.dom().finite(),
        m.dom().len() <= cap,
    ensures
        learn_all(m, items, cap).dom().finite(),
        learn_all(m, items, cap).dom().len() <= cap,
        forall|k: u64|
            m.contains_key(k) ==> #[trigger] learn_all(m, items, cap).contains_key(k),
        forall|k: u64|
            m.contains_key(k) && (forall|i: int| 0 <= i < items.len() ==> items[i].0 != k)
                ==> #[trigger] learn_all(m, items, cap)[k] == m[k],
    decreases items.len(),
{
    if items.len() > 0 {
        let pre = items.drop_last();
        lemma_capacity_kept(m, pre, cap);
        let r = learn_all(m, pre, cap);
        assert forall|k: u64|
            m.contains_key(k) && (forall|i: int| 0 <= i < items.len() ==> items[i].0 != k) implies
            #[trigger] learn_all(m, items, cap)[k] == m[k] by {
            assert forall|i: int| 0 <= i < pre.len() implies pre[i].0 != k by {
                assert(pre[i] == items[i]);
            }
            assert(items[items.len() - 1] == items.last());
        }
    }
}

/// Capacity: learning addresses that are all new and pairwise distinct
/// fills the table to `min(cap, held + new)`; in particular, offered more
/// new addresses than it has room for, the table ends exactly full. The
/// entries already held stay as they were.
pub proof fn lemma_capacity_bound(m: Map<u64, MacEntry>, items: Seq<(u64, MacEntry)>, cap: nat)
    requires
        m.dom().finite(),
        m.dom().len() <= cap,
        forall|i: int, j: int| 0 <= i < j < items.len() ==> items[i].0 != items[j].0,
        forall|i: int| 0 <= i < items.len() ==> !m.contains_key(#[trigger] items[i].0),
    ensures
        learn_all(m, items, cap).dom().finite(),
        learn_all(m, items, cap).dom().len() == if m.dom().len() + items.len() < cap {
            m.dom().len() + items.len()
        } else {
            cap
        },
        m.dom().len() + items.len() >= cap ==> learn_all(m, items, cap).dom().len() == cap,
        forall|k: u64| m.contains_key(k) ==> #[trigger] learn_all(m, items, cap).contains_key(k)
            && learn_all(m, items, cap)[k] == m[k],
        forall|k: u64|
            #[trigger] learn_all(m, items, cap).contains_key(k) ==> m.contains_key(k) || exists|
                i: int,
            |
                0 <= i < items.len() && items[i].0 == k,
    decreases items.len(),
{
    if items.len() > 0 {
        let pre = items.drop_last();
        let last = items.last();
        assert(items[items.len() - 1] == last);
        assert forall|i: int| 0 <= i < pre.len() implies !m.contains_key(#[trigger] pre[i].0) by {
            assert(pre[i] == items[i]);
        }
        assert forall|i: int, j: int| 0 <= i < j < pre.len() implies pre[i].0 != pre[j].0 by {
            assert(pre[i] == items[i] && pre[j] == items[j]);
        }
        lemma_capacity_bound(m, pre, cap);
        let r = learn_all(m, pre, cap);
        assert(!r.contains_key(last.0)) by {
            if r.contains_key(last.0) {
                assert(!m.contains_key(last.0));
                let i = choose|i: int| 0 <= i < pre.len() && pre[i].0 == last.0;
                assert(items[i].0 == items[items.len() - 1].0);
            }
        }
        assert forall|k: u64| m.contains_key(k) implies #[trigger] learn_all(
            m,
            items,
            cap,
        ).contains_key(k) && learn_all(m, items, cap)[k] == m[k] by {
            assert(k != last.0);
        }
        assert forall|k: u64| #[trigger]
            learn_all(m, items, cap).contains_key(k) implies m.contains_key(k) || exists|i: int|
            0 <= i < items.len() && items[i].0 == k by {
            if k == last.0 {
                assert(items[items.len() - 1].0 == k);
            } else {
                assert(r.contains_key(k));
                if !m.contains_key(k) {
                    let i = choose|i: int| 0 <= i < pre.len() && pre[i].0 == k;
                    assert(items[i].0 == k);
                }
            }
        }
    }
}

/// Shutdown: once shutdown was requested, an aging step sweeps nothing,
/// acknowledges the request and tells the task to end.
pub proof fn lemma_aging_after_shutdown(s: SwitchView, now: u64)
    requires
        s.exiting,
    ensures
        aging_state(s, now).fdb == s.fdb,
        aging_state(s, now).stopped,
        aging_state(s, now).exiting,
        aging_next(s) == AgingStep::Stopped,
{
}

/// The frame events of `evs`, in order.
pub open spec fn frames_of(evs: Seq<SwitchEvent>) -> Seq<SwitchEvent> {
    evs.filter(|e: SwitchEvent| e is Frame)
}

/// Shutdown safety: after shutdown was requested, whatever mix of frames
/// and aging steps follows, the table ends as the frames alone would leave
/// it (no sweep runs again), the request stays raised, and after any aging
/// step the task has acknowledged that it stopped.
pub proof fn lemma_shutdown_safety(s: SwitchView, evs: Seq<SwitchEvent>)
    requires
        s.exiting,
    ensures
        run(s, evs).fdb == run(s, frames_of(evs)).fdb,
        run(s, evs).exiting,
        (exists|i: int| 0 <= i < evs.len() && evs[i] is Aging) ==> run(s, evs).stopped,
    decreases evs.len(),
{
    lemma_run_keeps_setup(s, evs);
    if evs.len() > 0 {
        let pre = evs.drop_last();
        let e = evs.last();
        lemma_shutdown_safety(s, pre);
        lemma_run_keeps_setup(s, pre);
        lemma_run_keeps_setup(s, frames_of(pre));
        reveal(Seq::filter);
        let pred = |e: SwitchEvent| e is Frame;
        assert(evs.drop_last() == pre);
        if e is Frame {
            assert(frames_of(evs) == frames_of(pre).push(e));
            assert(frames_of(evs).drop_last() =~= frames_of(pre));
        } else {
            assert(frames_of(evs) == frames_of(pre));
        }
        if exists|i: int| 0 <= i < evs.len() && evs[i] is Aging {
            let i = choose|i: int| 0 <= i < evs.len() && evs[i] is Aging;
            if i < pre.len() {
                assert(pre[i] == evs[i]);
                lemma_run_keeps_setup(run(s, pre), seq![e]);
                assert(seq![e].drop_last() =~= Seq::<SwitchEvent>::empty());
            }
        }
    }
}

} // verus!
