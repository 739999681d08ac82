//! The packet routing of a connection: packets read from the stream for
//! one channel while another channel is waiting are held until their
//! channel asks for them, and client channels are numbered.
//!
//! Waiting for a channel's next packet is a loop that alternates with
//! reading the stream: [`Router::take_held`] answers from the hold first,
//! and [`Router::route`] decides for each packet read whether the waiting
//! channel gets it or it is held.

use vstd::prelude::*;

use crate::protocol::Packet;

verus! {

/// The fields of a packet: channel, message id, reply flag, payload.
pub open spec fn packet_view(p: Packet) -> (u32, u32, bool, Seq<u8>) {
    (p.channel, p.message_id, p.is_reply, p.payload@)
}

/// A connection's routing state.
pub struct Router {
    next_channel_id: u32,
    pending: Vec<Packet>,
}

impl Router {
    /// The packets held for their channels, in the order they were read.
    pub closed spec fn held(&self) -> Seq<(u32, u32, bool, Seq<u8>)> {
        self.pending@.map_values(|p: Packet| packet_view(p))
    }

    /// The counter that numbers the next client channel.
    pub closed spec fn spec_next_channel(&self) -> u32 {
        self.next_channel_id
    }

    /// A router holding nothing, whose counter starts at 1 (channel 0 is
    /// the control channel).
    pub fn new() -> (r: Self)
        ensures
            r.held() == Seq::<(u32, u32, bool, Seq<u8>)>::empty(),
            r.spec_next_channel() == 1,
    {
        let r = Router { next_channel_id: 1, pending: Vec::new() };
        assert(r.held() =~= Seq::<(u32, u32, bool, Seq<u8>)>::empty());
        r
    }

    /// Numbers a new client channel: client channels have odd ids, twice
    /// the counter plus one (3, 5, 7, ...), in 32-bit arithmetic; the
    /// counter moves on, wrapping.
    pub fn new_channel_id(&mut self) -> (r: u32)
        ensures
            r as int == (2 * old(self).spec_next_channel()) % 0x1_0000_0000 + 1,
            final(self).spec_next_channel() as int == (old(self).spec_next_channel() + 1) % 0x1_0000_0000,
            final(self).held() == old(self).held(),
    {
        let n = self.next_channel_id;
        self.next_channel_id = n.wrapping_add(1);
        let r = (n << 1u32) | 1u32;
        assert(r as int == (2 * n) % 0x1_0000_0000 + 1) by (bit_vector)
            requires
                r == (n << 1u32) | 1u32,
        ;
        r
    }

    /// Takes the oldest held packet for `channel`, if there is one.
    pub fn take_held(&mut self, channel: u32) -> (r: Option<Packet>)
        ensures
            r is None <==> forall|j: int| 0 <= j < old(self).held().len() ==> (#[trigger] old(self).held()[j]).0 != channel,
            r is None ==> final(self).held() == old(self).held(),
            r matches Some(p) ==> exists|i: int|
                0 <= i < old(self).held().len() && (#[trigger] old(self).held()[i]).0 == channel && (forall|j: int|
                    0 <= j < i ==> (#[trigger] old(self).held()[j]).0 != channel) && packet_view(p) == old(
                    self,
                ).held()[i] && final(self).held() == old(self).held().remove(i),
            final(self).spec_next_channel() == old(self).spec_next_channel(),
    {
        let ghost before = self.pending@;
        let mut i: usize = 0;
        while i < self.pending.len()
            invariant
                i <= self.pending@.len(),
                self.pending@ == before,
                before == old(self).pending@,
                self.next_channel_id == old(self).next_channel_id,
                forall|j: int| 0 <= j < i ==> (#[trigger] before[j]).channel != channel,
            decreases self.pending@.len() - i,
        {
            if self.pending[i].channel == channel {
                let p = self.pending.remove(i);
                proof {
                    let h = before.map_values(|q: Packet| packet_view(q));
                    assert(self.held() =~= h.remove(i as int));
                    assert(h == old(self).held());
                    assert(h[i as int] == packet_view(p));
                    assert(h[i as int].0 == channel);
                    assert forall|j: int| 0 <= j < i implies (#[trigger] h[j]).0 != channel by {
                        assert(h[j] == packet_view(before[j]));
                    }
                }
                return Some(p);
            }
            i += 1;
        }
        proof {
            let h = before.map_values(|q: Packet| packet_view(q));
            assert(h == old(self).held());
            assert forall|j: int| 0 <= j < h.len() implies (#[trigger] h[j]).0 != channel by {
                assert(h[j] == packet_view(before[j]));
            }
        }
        None
    }

    /// Decides about a packet read while `channel` waits: it is handed over
    /// when it is for `channel`, and held otherwise.
    pub fn route(&mut self, packet: Packet, channel: u32) -> (r: Option<Packet>)
        ensures
            packet.channel == channel ==> r == Some(packet) && final(self).held() == old(self).held(),
            packet.channel != channel ==> r is None && final(self).held() == old(self).held().push(
                packet_view(packet),
            ),
            final(self).spec_next_channel() == old(self).spec_next_channel(),
    {
        if packet.channel == channel {
            Some(packet)
        } else {
            let ghost before = self.pending@;
            let ghost v = packet_view(packet);
            self.pending.push(packet);
            proof {
                assert(self.held() =~= before.map_values(|q: Packet| packet_view(q)).push(v));
            }
            None
        }
    }
}

} // verus!
