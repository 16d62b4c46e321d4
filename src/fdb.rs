//! The forwarding database: hardware address key to egress interface and
//! expiry instant, at most `capacity` entries, kept in key order.
use vstd::prelude::*;

use crate::netdev::NetDevice;

verus! {

/// What the database knows of one address.
#[derive(Clone, Copy, PartialEq, Eq, Structural, Debug)]
pub struct MacEntry {
    /// The interface the address was last seen on.
    pub dev: NetDevice,
    /// The instant from which the entry counts as expired.
    pub expires_in: u64,
}

/// `now + max_age`, held at `u64::MAX` where the sum would not fit.
pub open spec fn expiry_after(now: u64, max_age: u64) -> u64 {
    if now + max_age > u64::MAX {
        u64::MAX
    } else {
        (now + max_age) as u64
    }
}

/// An entry is expired from its expiry instant on.
pub open spec fn entry_expired(e: MacEntry, now: u64) -> bool {
    e.expires_in <= now
}

impl MacEntry {
    /// An entry for an address seen on `dev` at `now`, valid for `max_age`.
    pub fn new(dev: NetDevice, now: u64, max_age: u64) -> (r: MacEntry)
        ensures
            r.dev == dev,
            r.expires_in == expiry_after(now, max_age),
    {
        let expires_in = if now > u64::MAX - max_age {
            u64::MAX
        } else {
            now + max_age
        };
        MacEntry { dev, expires_in }
    }

    pub fn get_dev(&self) -> (r: u32)
        ensures
            r == self.dev.ifindex,
    {
        self.dev.get_dev()
    }

    pub fn get_expires_in(&self) -> (r: u64)
        ensures
            r == self.expires_in,
    {
        self.expires_in
    }

    pub fn is_expired(&self, now: u64) -> (r: bool)
        ensures
            r == entry_expired(*self, now),
    {
        self.expires_in <= now
    }
}

/// The table after learning `mac -> e`: an entry already there is overwritten
/// in place, a new one is added while fewer than `cap` are held, and at
/// capacity the table stays as it was.
pub open spec fn learned(m: Map<u64, MacEntry>, mac: u64, e: MacEntry, cap: nat) -> Map<
    u64,
    MacEntry,
> {
    if m.contains_key(mac) || m.dom().len() < cap {
        m.insert(mac, e)
    } else {
        m
    }
}

/// Whether a sweep at `now` keeps an entry: never when forced, else while
/// the entry has not expired.
pub open spec fn survives(e: MacEntry, now: u64, force: bool) -> bool {
    !force && !entry_expired(e, now)
}

/// The table after a sweep at `now`.
pub open spec fn swept(m: Map<u64, MacEntry>, now: u64, force: bool) -> Map<u64, MacEntry> {
    Map::new(|k: u64| m.contains_key(k) && survives(m[k], now, force), |k: u64| m[k])
}

/// One stored entry with its key.
#[derive(Clone, Copy)]
struct FdbSlot {
    mac: u64,
    entry: MacEntry,
}

/// Keys strictly increase along the slots.
spec fn sorted(s: Seq<FdbSlot>) -> bool {
    forall|i: int, j: int| 0 <= i < j < s.len() ==> s[i].mac < s[j].mac
}

spec fn has_key(s: Seq<FdbSlot>, k: u64) -> bool {
    exists|i: int| 0 <= i < s.len() && s[i].mac == k
}

spec fn slots_map(s: Seq<FdbSlot>) -> Map<u64, MacEntry> {
    Map::new(
        |k: u64| has_key(s, k),
        |k: u64| s[choose|i: int| 0 <= i < s.len() && s[i].mac == k].entry,
    )
}

spec fn slot_keys(s: Seq<FdbSlot>) -> Seq<u64> {
    s.map_values(|x: FdbSlot| x.mac)
}

proof fn lemma_slot(s: Seq<FdbSlot>, i: int)
    requires
        sorted(s),
        0 <= i < s.len(),
    ensures
        slots_map(s).contains_key(s[i].mac),
        slots_map(s)[s[i].mac] == s[i].entry,
{
    let k = s[i].mac;
    assert(has_key(s, k));
    let j = choose|j: int| 0 <= j < s.len() && s[j].mac == k;
    assert(j == i) by {
        if j < i {
            assert(s[j].mac < s[i].mac);
        } else if i < j {
            assert(s[i].mac < s[j].mac);
        }
    }
}

/// The domain of the view is finite and holds one key per slot.
proof fn lemma_dom(s: Seq<FdbSlot>)
    requires
        sorted(s),
    ensures
        slots_map(s).dom() == slot_keys(s).to_set(),
        slots_map(s).dom().finite(),
        slots_map(s).dom().len() == s.len(),
{
    let ks = slot_keys(s);
    assert forall|k: u64| slots_map(s).dom().contains(k) <==> ks.to_set().contains(k) by {
        if has_key(s, k) {
            let i = choose|i: int| 0 <= i < s.len() && s[i].mac == k;
            assert(ks[i] == k);
        }
        if ks.contains(k) {
            let i = choose|i: int| 0 <= i < ks.len() && ks[i] == k;
            assert(s[i].mac == k);
        }
    }
    assert(slots_map(s).dom() =~= ks.to_set());
    assert(ks.no_duplicates()) by {
        assert forall|i: int, j: int| 0 <= i < ks.len() && 0 <= j < ks.len() && i != j implies ks[i]
            != ks[j] by {
            if i < j {
                assert(s[i].mac < s[j].mac);
            } else {
                assert(s[j].mac < s[i].mac);
            }
        }
    }
    ks.unique_seq_to_set();
    vstd::seq_lib::seq_to_set_is_finite(ks);
}

/// A sorted slot sequence whose keys and entries agree with `m` has `m` as
/// its view.
proof fn lemma_view_is(t: Seq<FdbSlot>, m: Map<u64, MacEntry>)
    requires
        sorted(t),
        forall|k: u64| has_key(t, k) <==> m.contains_key(k),
        forall|j: int| 0 <= j < t.len() ==> m[#[trigger] t[j].mac] == t[j].entry,
    ensures
        slots_map(t) == m,
{
    assert forall|k: u64| slots_map(t).contains_key(k) implies slots_map(t)[k] == m[k] by {
        let j = choose|j: int| 0 <= j < t.len() && t[j].mac == k;
        lemma_slot(t, j);
    }
    assert(slots_map(t) =~= m);
}

/// The forwarding database.
pub struct Fdb {
    slots: Vec<FdbSlot>,
    capacity: usize,
}

impl View for Fdb {
    type V = Map<u64, MacEntry>;

    closed spec fn view(&self) -> Map<u64, MacEntry> {
        slots_map(self.slots@)
    }
}

impl Fdb {
    /// Keys are unique and in order, and no more than `capacity` are held.
    pub closed spec fn wf(&self) -> bool {
        sorted(self.slots@) && self.slots@.len() <= self.capacity
    }

    /// The most entries the table will hold.
    pub closed spec fn cap(&self) -> nat {
        self.capacity as nat
    }

    /// A well-formed table is finite and within its capacity.
    pub proof fn lemma_bounded(&self)
        requires
            self.wf(),
        ensures
            self@.dom().finite(),
            self@.dom().len() <= self.cap(),
    {
        lemma_dom(self.slots@);
    }

    /// An empty table that will hold at most `capacity` entries.
    pub fn new(capacity: usize) -> (r: Fdb)
        ensures
            r.wf(),
            r@ == Map::<u64, MacEntry>::empty(),
            r.cap() == capacity,
    {
        let r = Fdb { slots: Vec::new(), capacity };
        assert(r@ =~= Map::<u64, MacEntry>::empty());
        r
    }

    /// The number of entries held.
    pub fn len(&self) -> (r: usize)
        requires
            self.wf(),
        ensures
            r == self@.dom().len(),
    {
        proof {
            lemma_dom(self.slots@);
        }
        self.slots.len()
    }

    /// The most entries the table will hold.
    pub fn capacity(&self) -> (r: usize)
        ensures
            r == self.cap(),
    {
        self.capacity
    }

    /// Binary search: the slot holding `mac`, or where it would be inserted.
    fn find(&self, mac: u64) -> (r: Result<usize, usize>)
        requires
            self.wf(),
        ensures
            r matches Ok(i) ==> i < self.slots@.len() && self.slots@[i as int].mac == mac,
            r matches Err(i) ==> {
                &&& i <= self.slots@.len()
                &&& forall|j: int| 0 <= j < i ==> self.slots@[j].mac < mac
                &&& forall|j: int| i <= j < self.slots@.len() ==> self.slots@[j].mac > mac
            },
    {
        let mut lo: usize = 0;
        let mut hi: usize = self.slots.len();
        while lo < hi
            invariant
                lo <= hi <= self.slots@.len(),
                sorted(self.slots@),
                forall|j: int| 0 <= j < lo ==> self.slots@[j].mac < mac,
                forall|j: int| hi <= j < self.slots@.len() ==> self.slots@[j].mac > mac,
            decreases hi - lo,
        {
            let mid = lo + (hi - lo) / 2;
            let m = self.slots[mid].mac;
            if m == mac {
                return Ok(mid);
            } else if m < mac {
                lo = mid + 1;
            } else {
                hi = mid;
            }
        }
        Err(lo)
    }

    /// The entry for `mac`, expired or not.
    pub fn get(&self, mac: u64) -> (r: Option<MacEntry>)
        requires
            self.wf(),
        ensures
            r == (if self@.contains_key(mac) {
                Some(self@[mac])
            } else {
                None
            }),
    {
        match self.find(mac) {
            Ok(i) => {
                proof {
                    lemma_slot(self.slots@, i as int);
                }
                Some(self.slots[i].entry)
            },
            Err(_) => None,
        }
    }
    /// Learns `mac -> entry`: overwrites an entry already held for `mac`,
    /// else adds one while the table is below capacity, else does nothing.
    /// Returns whether the table now holds `entry` for `mac`.
    pub fn upsert(&mut self, mac: u64, entry: MacEntry) -> (r: bool)
        requires
            old(self).wf(),
        ensures
            final(self).wf(),
            final(self).cap() == old(self).cap(),
            r == (old(self)@.contains_key(mac) || old(self)@.dom().len() < old(self).cap()),
            final(self)@ == learned(old(self)@, mac, entry, old(self).cap()),
    {
        proof {
            lemma_dom(self.slots@);
        }
        let ghost old_slots = self.slots@;
        let ghost old_map = self@;
        proof {
            assert forall|j: int| 0 <= j < old_slots.len() implies old_map.contains_key(
                #[trigger] old_slots[j].mac,
            ) && old_map[old_slots[j].mac] == old_slots[j].entry by {
                lemma_slot(old_slots, j);
            }
        }
        match self.find(mac) {
            Ok(i) => {
                self.slots.set(i, FdbSlot { mac, entry });
                proof {
                    let t = self.slots@;
                    let m = old_map.insert(mac, entry);
                    assert(forall|j: int| 0 <= j < t.len() ==> t[j].mac == old_slots[j].mac);
                    assert forall|k: u64| has_key(t, k) <==> m.contains_key(k) by {
                        if has_key(old_slots, k) {
                            let j = choose|j: int| 0 <= j < old_slots.len() && old_slots[j].mac == k;
                            assert(t[j].mac == k);
                        }
                        if has_key(t, k) {
                            let j = choose|j: int| 0 <= j < t.len() && t[j].mac == k;
                            assert(old_slots[j].mac == k);
                        }
                    }
                    lemma_view_is(t, m);
                }
                true
            },
            Err(i) => {
                if self.slots.len() < self.capacity {
                    self.slots.insert(i, FdbSlot { mac, entry });
                    proof {
                        let t = self.slots@;
                        let m = old_map.insert(mac, entry);
                        assert(forall|j: int| 0 <= j < i ==> t[j] == old_slots[j]);
                        assert(forall|j: int| i < j < t.len() ==> t[j] == old_slots[j - 1]);
                        assert(t[i as int].mac == mac);
                        assert(sorted(t));
                        assert forall|k: u64| has_key(t, k) <==> m.contains_key(k) by {
                            if has_key(old_slots, k) {
                                let j = choose|j: int|
                                    0 <= j < old_slots.len() && old_slots[j].mac == k;
                                if j < i {
                                    assert(t[j].mac == k);
                                } else {
                                    assert(t[j + 1].mac == k);
                                }
                            }
                            if k == mac {
                                assert(t[i as int].mac == k);
                            }
                            if has_key(t, k) {
                                let j = choose|j: int| 0 <= j < t.len() && t[j].mac == k;
                                if j < i {
                                    assert(old_slots[j].mac == k);
                                } else if j > i {
                                    assert(old_slots[j - 1].mac == k);
                                }
                            }
                        }
                        assert forall|j: int| 0 <= j < t.len() implies m[#[trigger] t[j].mac]
                            == t[j].entry by {
                            if j > i {
                                assert(t[j] == old_slots[j - 1]);
                            }
                        }
                        lemma_view_is(t, m);
                    }
                    true
                } else {
                    proof {
                        if has_key(old_slots, mac) {
                            let j = choose|j: int|
                                0 <= j < old_slots.len() && old_slots[j].mac == mac;
                            if j < i {
                                assert(old_slots[j].mac < mac);
                            } else {
                                assert(old_slots[j].mac > mac);
                            }
                        }
                    }
                    false
                }
            },
        }
    }

    /// Sweeps the table in key order in one pass: drops every entry when
    /// `force` is set, else every entry expired at `now`.
    pub fn expire(&mut self, now: u64, force: bool)
        requires
            old(self).wf(),
        ensures
            final(self).wf(),
            final(self).cap() == old(self).cap(),
            final(self)@ == swept(old(self)@, now, force),
    {
        let ghost old_slots = self.slots@;
        let ghost old_map = self@;
        proof {
            assert forall|j: int| 0 <= j < old_slots.len() implies old_map.contains_key(
                #[trigger] old_slots[j].mac,
            ) && old_map[old_slots[j].mac] == old_slots[j].entry by {
                lemma_slot(old_slots, j);
            }
        }
        let mut kept: Vec<FdbSlot> = Vec::new();
        // where each kept slot came from, and where each survivor went
        let ghost mut src: Seq<int> = Seq::empty();
        let ghost mut pos: Map<int, int> = Map::empty();
        let mut i: usize = 0;
        while i < self.slots.len()
            invariant
                self.slots@ == old_slots,
                sorted(old_slots),
                i <= old_slots.len(),
                src.len() == kept@.len(),
                kept@.len() <= i,
                old_slots.len() <= self.capacity,
                forall|j: int|
                    0 <= j < kept@.len() ==> 0 <= #[trigger] src[j] < i && kept@[j]
                        == old_slots[src[j]] && survives(old_slots[src[j]].entry, now, force),
                forall|j1: int, j2: int| 0 <= j1 < j2 < src.len() ==> src[j1] < src[j2],
                forall|t: int|
                    0 <= t < i && survives(#[trigger] old_slots[t].entry, now, force) ==> {
                        &&& pos.contains_key(t)
                        &&& 0 <= pos[t] < kept@.len()
                        &&& kept@[pos[t]] == old_slots[t]
                    },
            decreases old_slots.len() - i,
        {
            let slot = self.slots[i];
            if !slot.entry.is_expired(now) && !force {
                kept.push(slot);
                proof {
                    pos = pos.insert(i as int, src.len() as int);
                    src = src.push(i as int);
                }
            }
            i = i + 1;
        }
        proof {
            let t = kept@;
            let m = swept(old_map, now, force);
            assert(sorted(t)) by {
                assert forall|a: int, b: int| 0 <= a < b < t.len() implies t[a].mac < t[b].mac by {
                    assert(src[a] < src[b]);
                }
            }
            assert forall|k: u64| has_key(t, k) <==> m.contains_key(k) by {
                if has_key(t, k) {
                    let j = choose|j: int| 0 <= j < t.len() && t[j].mac == k;
                    assert(old_map.contains_key(old_slots[src[j]].mac));
                }
                if m.contains_key(k) {
                    let o = choose|o: int| 0 <= o < old_slots.len() && old_slots[o].mac == k;
                    lemma_slot(old_slots, o);
                    assert(survives(old_slots[o].entry, now, force));
                    assert(t[pos[o]].mac == k);
                }
            }
            assert forall|j: int| 0 <= j < t.len() implies m[#[trigger] t[j].mac] == t[j].entry by {
                assert(old_map.contains_key(old_slots[src[j]].mac));
            }
            lemma_view_is(t, m);
        }
        self.slots = kept;
    }
}

} // verus!
