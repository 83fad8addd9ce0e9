//! The sender: accumulates streamed samples into frames stamped with the
//! running sample clock.
use vstd::prelude::*;

use crate::link::{
    activate_spec, deactivate_spec, fail_spec, set_channel_spec, Link, LinkAction, LinkView,
};
use crate::packet::{Packet, PacketView, BUFFER_SIZE};

verus! {

/// The sample clock `t` advanced by one frame, wrapping at `u64::MAX`.
pub open spec fn clock_step(t: u64) -> u64 {
    if t + BUFFER_SIZE > u64::MAX {
        (t + BUFFER_SIZE - u64::MAX - 1) as u64
    } else {
        (t + BUFFER_SIZE) as u64
    }
}

/// The sample clock `t` advanced by `k` frames.
pub open spec fn clock_after(t: u64, k: nat) -> u64
    decreases k,
{
    if k == 0 {
        t
    } else {
        clock_step(clock_after(t, (k - 1) as nat))
    }
}

/// Frame `k` of the sample stream `s`.
pub open spec fn chunk(s: Seq<u32>, k: int) -> Seq<u32> {
    s.subrange(k * BUFFER_SIZE, (k + 1) * BUFFER_SIZE)
}

/// The mathematical state of a [`Transmitter`].
pub ghost struct TransmitterView {
    pub link: LinkView,
    pub lbuffer: Seq<u32>,
    pub rbuffer: Seq<u32>,
    pub time: u64,
}

impl TransmitterView {
    /// Both accumulators hold the same, less than a frame's, number of
    /// samples.
    pub open spec fn wf(self) -> bool {
        self.lbuffer.len() == self.rbuffer.len() && self.lbuffer.len() < BUFFER_SIZE
    }

    /// Everything reset: nothing accumulated, the clock at zero.
    pub open spec fn reset(self, link: LinkView) -> TransmitterView {
        TransmitterView { link, lbuffer: Seq::empty(), rbuffer: Seq::empty(), time: 0 }
    }
}

/// The sending side of one plugin instance: the channel binding, the
/// samples not yet framed, and the timestamp of the next frame.
pub struct Transmitter {
    link: Link,
    lbuffer: Vec<u32>,
    rbuffer: Vec<u32>,
    time: u64,
}

impl View for Transmitter {
    type V = TransmitterView;

    closed spec fn view(&self) -> TransmitterView {
        TransmitterView {
            link: self.link@,
            lbuffer: self.lbuffer@,
            rbuffer: self.rbuffer@,
            time: self.time,
        }
    }
}

impl Transmitter {
    /// Channel 0, inactive, nothing accumulated.
    pub fn new() -> (r: Transmitter)
        ensures
            r@.wf(),
            r@.link == (LinkView { channel: 0, active: false, generation: 0 }),
            r@.lbuffer.len() == 0,
            r@.time == 0,
    {
        Transmitter { link: Link::new(), lbuffer: Vec::new(), rbuffer: Vec::new(), time: 0 }
    }

    pub fn link(&self) -> (r: &Link)
        ensures
            r@ == self@.link,
    {
        &self.link
    }

    /// The timestamp that the next frame will carry.
    pub fn time(&self) -> (r: u64)
        ensures
            r == self@.time,
    {
        self.time
    }

    /// How many samples per channel wait for the next frame.
    pub fn pending_samples(&self) -> (r: usize)
        ensures
            r == self@.lbuffer.len(),
    {
        self.lbuffer.len()
    }

    /// Starts streaming: the accumulators and the clock are reset and the
    /// connection is created.
    pub fn activate(&mut self) -> (r: LinkAction)
        ensures
            final(self)@ == old(self)@.reset(activate_spec(old(self)@.link).0),
            r == activate_spec(old(self)@.link).1,
            final(self)@.wf(),
    {
        self.lbuffer.clear();
        self.rbuffer.clear();
        self.time = 0;
        self.link.activate()
    }

    /// Stops streaming: the connection is released and the accumulators and
    /// the clock are reset.
    pub fn deactivate(&mut self) -> (r: LinkAction)
        ensures
            final(self)@ == old(self)@.reset(deactivate_spec(old(self)@.link).0),
            r == deactivate_spec(old(self)@.link).1,
            final(self)@.wf(),
    {
        self.lbuffer.clear();
        self.rbuffer.clear();
        self.time = 0;
        self.link.deactivate()
    }

    /// Follows the channel control; a rebind keeps the accumulators and the
    /// clock, so that timestamps stay continuous.
    pub fn set_channel(&mut self, channel: u8) -> (r: LinkAction)
        ensures
            final(self)@ == (TransmitterView {
                link: set_channel_spec(old(self)@.link, channel).0,
                ..old(self)@
            }),
            r == set_channel_spec(old(self)@.link, channel).1,
    {
        self.link.set_channel(channel)
    }

    /// The connection died: it is rebuilt, and the accumulators and the
    /// clock are kept.
    pub fn connection_lost(&mut self) -> (r: LinkAction)
        ensures
            final(self)@ == (TransmitterView { link: fail_spec(old(self)@.link).0, ..old(self)@ }),
            r == fail_spec(old(self)@.link).1,
    {
        self.link.fail()
    }

    /// Appends one block of (already gain-scaled) samples to the stream and
    /// returns every frame that it completes, in order. Frame `k` holds
    /// samples `k * BUFFER_SIZE ..` of the accumulated samples followed by
    /// the block, and is stamped with the clock advanced by `k` frames; what
    /// is left over waits for the next block.
    pub fn process(&mut self, left: &[u32], right: &[u32]) -> (r: Vec<Packet>)
        requires
            old(self)@.wf(),
            left@.len() == right@.len(),
        ensures
            ({
                let all_l = old(self)@.lbuffer + left@;
                let all_r = old(self)@.rbuffer + right@;
                let m = all_l.len() as int / (BUFFER_SIZE as int);
                &&& r@.len() == m
                &&& forall|k: int|
                    0 <= k < m ==> #[trigger] r@[k]@ == (PacketView {
                        ldata: chunk(all_l, k),
                        rdata: chunk(all_r, k),
                        timestamp: clock_after(old(self)@.time, k as nat),
                    })
                &&& final(self)@.lbuffer == all_l.subrange(m * BUFFER_SIZE, all_l.len() as int)
                &&& final(self)@.rbuffer == all_r.subrange(m * BUFFER_SIZE, all_r.len() as int)
                &&& final(self)@.time == clock_after(old(self)@.time, m as nat)
            }),
            final(self)@.link == old(self)@.link,
            final(self)@.wf(),
            forall|k: int| 0 <= k < r@.len() ==> (#[trigger] r@[k]@).wf(),
    {
        let ghost all_l = self.lbuffer@ + left@;
        let ghost all_r = self.rbuffer@ + right@;
        let ghost start = self.time;
        let ghost n0 = self.lbuffer@.len();
        let mut out: Vec<Packet> = Vec::new();
        let mut i: usize = 0;
        while i < left.len()
            invariant
                all_l == old(self)@.lbuffer + left@,
                all_r == old(self)@.rbuffer + right@,
                n0 == old(self)@.lbuffer.len(),
                n0 == old(self)@.rbuffer.len(),
                start == old(self)@.time,
                left@.len() == right@.len(),
                i <= left@.len(),
                self.link@ == old(self)@.link,
                self.lbuffer@.len() == self.rbuffer@.len(),
                self.lbuffer@.len() < BUFFER_SIZE,
                n0 + i == out@.len() * BUFFER_SIZE + self.lbuffer@.len(),
                self.lbuffer@ == all_l.subrange(out@.len() * BUFFER_SIZE, n0 + i),
                self.rbuffer@ == all_r.subrange(out@.len() * BUFFER_SIZE, n0 + i),
                self.time == clock_after(start, out@.len() as nat),
                forall|k: int|
                    0 <= k < out@.len() ==> #[trigger] out@[k]@ == (PacketView {
                        ldata: chunk(all_l, k),
                        rdata: chunk(all_r, k),
                        timestamp: clock_after(start, k as nat),
                    }),
            decreases left@.len() - i,
        {
            self.lbuffer.push(left[i]);
            self.rbuffer.push(right[i]);
            i += 1;
            assert(self.lbuffer@ =~= all_l.subrange(out@.len() * BUFFER_SIZE, n0 + i));
            assert(self.rbuffer@ =~= all_r.subrange(out@.len() * BUFFER_SIZE, n0 + i));
            if self.lbuffer.len() == BUFFER_SIZE {
                let p = Packet::new(self.lbuffer.as_slice(), self.rbuffer.as_slice(), self.time);
                proof {
                    let m = out@.len() as int;
                    assert(p@.ldata =~= chunk(all_l, m));
                    assert(p@.rdata =~= chunk(all_r, m));
                }
                out.push(p);
                self.time = self.time.wrapping_add(BUFFER_SIZE as u64);
                self.lbuffer.clear();
                self.rbuffer.clear();
                assert(self.lbuffer@ =~= all_l.subrange(out@.len() * BUFFER_SIZE, n0 + i));
                assert(self.rbuffer@ =~= all_r.subrange(out@.len() * BUFFER_SIZE, n0 + i));
            }
        }
        proof {
            let m = out@.len() as int;
            vstd::arithmetic::div_mod::lemma_fundamental_div_mod_converse(
                all_l.len() as int,
                BUFFER_SIZE as int,
                m,
                self.lbuffer@.len() as int,
            );
            assert forall|k: int| 0 <= k < out@.len() implies (#[trigger] out@[k]@).wf() by {
                assert(out@[k]@.ldata.len() == BUFFER_SIZE);
            }
        }
        out
    }
}

} // verus!
