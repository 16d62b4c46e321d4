//! The frame buffer: one link-layer frame, its header cursor, how the stack
//! classified it, and the interface it is to leave by.
use vstd::prelude::*;

use crate::mac::MacAddr;

verus! {

/// Length of an Ethernet link header: destination, source, type.
pub const ETH_HLEN: usize = 14;

/// How the network stack classified a captured frame.
#[derive(Clone, Copy, PartialEq, Eq, Structural, Debug)]
pub enum PacketClass {
    /// An ordinary frame that arrived from the wire.
    Normal,
    /// A frame looped back to the host.
    Loopback,
    /// A copy of a frame the host itself sent.
    Outgoing,
}

/// The stack's code for a frame the host itself sent.
pub const PACKET_OUTGOING: u8 = 4;

/// The stack's code for a frame looped back to the host.
pub const PACKET_LOOPBACK: u8 = 5;

impl PacketClass {
    /// The class of a frame that the stack tagged with packet type `t`.
    pub fn from_pkt_type(t: u8) -> (r: PacketClass)
        ensures
            r == (if t == PACKET_LOOPBACK {
                PacketClass::Loopback
            } else if t == PACKET_OUTGOING {
                PacketClass::Outgoing
            } else {
                PacketClass::Normal
            }),
    {
        if t == PACKET_LOOPBACK {
            PacketClass::Loopback
        } else if t == PACKET_OUTGOING {
            PacketClass::Outgoing
        } else {
            PacketClass::Normal
        }
    }
}

/// Why a frame buffer could not be duplicated.
#[derive(Clone, Copy, PartialEq, Eq, Structural, Debug)]
pub enum FrameError {
    /// No memory was available for the copy's storage.
    NoMemory,
}

/// The abstract value of a frame buffer.
pub struct FrameView {
    /// The bytes of the frame's storage.
    pub data: Seq<u8>,
    /// The cursor: where the frame's headers begin in `data`.
    pub head: nat,
    pub pkt_type: PacketClass,
    /// The interface the frame is to leave by, once one was chosen.
    pub dev: Option<u32>,
}

/// A whole link header stands at the cursor.
pub open spec fn has_link_header(f: FrameView) -> bool {
    f.head + ETH_HLEN <= f.data.len()
}

/// The destination address at the cursor.
pub open spec fn dhost(f: FrameView) -> Seq<u8> {
    f.data.subrange(f.head as int, f.head + 6int)
}

/// The source address at the cursor.
pub open spec fn shost(f: FrameView) -> Seq<u8> {
    f.data.subrange(f.head + 6int, f.head + 12int)
}

/// The frame with its cursor moved back over `n` header bytes.
pub open spec fn pushed(f: FrameView, n: nat) -> FrameView {
    FrameView { head: (f.head - n) as nat, ..f }
}

/// The frame aimed at interface `dev`.
pub open spec fn retargeted(f: FrameView, dev: u32) -> FrameView {
    FrameView { dev: Some(dev), ..f }
}

/// An owned frame buffer.
pub struct SkBuff {
    data: Vec<u8>,
    head: usize,
    pkt_type: PacketClass,
    dev: Option<u32>,
}

impl View for SkBuff {
    type V = FrameView;

    closed spec fn view(&self) -> FrameView {
        FrameView { data: self.data@, head: self.head as nat, pkt_type: self.pkt_type, dev: self.dev }
    }
}

impl SkBuff {
    /// The cursor never lies past the end of the storage.
    #[verifier::type_invariant]
    closed spec fn inv(&self) -> bool {
        self.head <= self.data@.len()
    }

    /// A received frame whose headers begin at `head` in `data`; `None` when
    /// `head` lies past the end of `data`.
    pub fn new(data: Vec<u8>, head: usize, pkt_type: PacketClass) -> (r: Option<SkBuff>)
        ensures
            head <= data@.len() <==> r is Some,
            r matches Some(f) ==> f@ == (FrameView {
                data: data@,
                head: head as nat,
                pkt_type,
                dev: None,
            }),
    {
        if head <= data.len() {
            let f = SkBuff { data, head, pkt_type, dev: None };
            Some(f)
        } else {
            None
        }
    }

    /// Moves the cursor back over `how_many` header bytes; returns false and
    /// leaves the frame as it was when fewer stand before the cursor.
    pub fn push(&mut self, how_many: usize) -> (r: bool)
        ensures
            r == (how_many <= old(self)@.head),
            r ==> final(self)@ == pushed(old(self)@, how_many as nat),
            !r ==> final(self)@ == old(self)@,
    {
        proof {
            use_type_invariant(&*self);
        }
        if how_many <= self.head {
            self.head = self.head - how_many;
            true
        } else {
            false
        }
    }

    pub fn get_pkt_type(&self) -> (r: PacketClass)
        ensures
            r == self@.pkt_type,
    {
        self.pkt_type
    }

    /// Aims the frame at interface `dev`.
    pub fn set_dev(&mut self, dev: u32)
        ensures
            final(self)@ == retargeted(old(self)@, dev),
    {
        proof {
            use_type_invariant(&*self);
        }
        self.dev = Some(dev);
    }

    pub fn get_dev(&self) -> (r: Option<u32>)
        ensures
            r == self@.dev,
    {
        self.dev
    }

    /// The cursor.
    pub fn head(&self) -> (r: usize)
        ensures
            r == self@.head,
            r <= self@.data.len(),
    {
        proof {
            use_type_invariant(self);
        }
        self.head
    }

    /// The frame's storage.
    pub fn data(&self) -> (r: &Vec<u8>)
        ensures
            r@ == self@.data,
    {
        &self.data
    }

    /// The destination address, when its six bytes stand at the cursor.
    pub fn get_ether_dhost(&self) -> (r: Option<MacAddr>)
        ensures
            r is Some <==> self@.head + 6 <= self@.data.len(),
            r matches Some(a) ==> a@ == dhost(self@),
    {
        proof {
            use_type_invariant(self);
        }
        if 6 <= self.data.len() - self.head {
            let h = self.head;
            let a: MacAddr = [
                self.data[h],
                self.data[h + 1],
                self.data[h + 2],
                self.data[h + 3],
                self.data[h + 4],
                self.data[h + 5],
            ];
            assert(a@ =~= dhost(self@));
            Some(a)
        } else {
            None
        }
    }

    /// The source address, when the destination and source addresses stand
    /// at the cursor.
    pub fn get_ether_shost(&self) -> (r: Option<MacAddr>)
        ensures
            r is Some <==> self@.head + 12 <= self@.data.len(),
            r matches Some(a) ==> a@ == shost(self@),
    {
        proof {
            use_type_invariant(self);
        }
        if 12 <= self.data.len() - self.head {
            let h = self.head;
            let a: MacAddr = [
                self.data[h + 6],
                self.data[h + 7],
                self.data[h + 8],
                self.data[h + 9],
                self.data[h + 10],
                self.data[h + 11],
            ];
            assert(a@ =~= shost(self@));
            Some(a)
        } else {
            None
        }
    }

    /// An independent copy with storage of its own; fails, leaving this
    /// frame as it is, when that storage cannot be had.
    pub fn try_clone(&self) -> (r: Result<SkBuff, FrameError>)
        ensures
            r matches Ok(c) ==> c@ == self@,
    {
        proof {
            use_type_invariant(self);
        }
        let mut data: Vec<u8> = Vec::new();
        match data.try_reserve(self.data.len()) {
            Ok(()) => {},
            Err(_) => {
                return Err(FrameError::NoMemory);
            },
        }
        let mut i: usize = 0;
        while i < self.data.len()
            invariant
                i <= self.data@.len(),
                data@ == self.data@.subrange(0, i as int),
            decreases self.data@.len() - i,
        {
            data.push(self.data[i]);
            i = i + 1;
        }
        assert(data@ =~= self.data@);
        Ok(SkBuff { data, head: self.head, pkt_type: self.pkt_type, dev: self.dev })
    }
}

} // verus!
