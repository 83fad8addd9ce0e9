//! One fixed-size audio frame: `BUFFER_SIZE` left and right samples and the
//! absolute sample index of the first of them.
use vstd::prelude::*;

use crate::wire::{
    decode_frame, decode_record, encode_frame, encode_record, frame_ok, lemma_decode_record,
    lemma_record_lengths, lemma_round_trip, read_u64_be,
};

verus! {

/// Samples per channel in one frame.
pub const BUFFER_SIZE: usize = 1024;

/// Bytes of one encoded frame: two length-prefixed sample sequences and the
/// timestamp.
pub const BYTE_BUFFER_SIZE: usize = 8216;

/// The mathematical content of a [`Packet`].
pub ghost struct PacketView {
    pub ldata: Seq<u32>,
    pub rdata: Seq<u32>,
    pub timestamp: u64,
}

impl PacketView {
    /// Both channels hold exactly one frame of samples.
    pub open spec fn wf(self) -> bool {
        self.ldata.len() == BUFFER_SIZE && self.rdata.len() == BUFFER_SIZE
    }
}

/// Whether absolute time `t` lies inside the frame that starts at `start`.
pub open spec fn active_at(start: u64, t: int) -> bool {
    start <= t < start + BUFFER_SIZE
}

/// Whether absolute time `t` lies at or past the end of the frame that
/// starts at `start`.
pub open spec fn complete_at(start: u64, t: int) -> bool {
    t >= start + BUFFER_SIZE
}

/// The stereo sample of `p` at absolute time `t`; silence (all bits zero)
/// outside the frame.
pub open spec fn read_at(p: PacketView, t: int) -> (u32, u32) {
    if active_at(p.timestamp, t) {
        (p.ldata[t - p.timestamp], p.rdata[t - p.timestamp])
    } else {
        (0u32, 0u32)
    }
}

/// Outside its frame a packet is silent; inside it, exactly one of the two
/// boundaries has been passed: a time is before the frame, in it, or past it.
pub proof fn lemma_frame_regions(p: PacketView, t: int)
    requires
        p.wf(),
    ensures
        active_at(p.timestamp, t) == (t >= p.timestamp && !complete_at(p.timestamp, t)),
        complete_at(p.timestamp, t) ==> t >= p.timestamp,
        (t < p.timestamp) != (active_at(p.timestamp, t) || complete_at(p.timestamp, t)),
        !active_at(p.timestamp, t) ==> read_at(p, t) == (0u32, 0u32),
        active_at(p.timestamp, t) ==> read_at(p, t) == (
            p.ldata[t - p.timestamp],
            p.rdata[t - p.timestamp],
        ),
{
}

/// Why bytes could not be read as a frame.
#[derive(Debug, PartialEq, Eq, Structural)]
pub enum FrameError {
    /// The bytes are not a well-formed frame: wrong size, or a channel whose
    /// length prefix is not `BUFFER_SIZE`.
    MalformedFrame,
}

/// A fresh vector holding the words of `s`.
pub fn copy_words(s: &[u32]) -> (r: Vec<u32>)
    ensures
        r@ == s@,
{
    let mut r: Vec<u32> = Vec::with_capacity(s.len());
    let mut i: usize = 0;
    while i < s.len()
        invariant
            i <= s@.len(),
            r@ == s@.subrange(0, i as int),
        decreases s@.len() - i,
    {
        r.push(s[i]);
        i += 1;
    }
    assert(r@ =~= s@);
    r
}

/// A frame of stereo samples, stored as the bit patterns of 32-bit floats.
pub struct Packet {
    ldata: Vec<u32>,
    rdata: Vec<u32>,
    timestamp: u64,
}

impl View for Packet {
    type V = PacketView;

    closed spec fn view(&self) -> PacketView {
        PacketView { ldata: self.ldata@, rdata: self.rdata@, timestamp: self.timestamp }
    }
}

impl Packet {
    /// Builds a frame from exactly `BUFFER_SIZE` samples per channel.
    pub fn new(ldata: &[u32], rdata: &[u32], time: u64) -> (r: Packet)
        requires
            ldata@.len() == BUFFER_SIZE,
            rdata@.len() == BUFFER_SIZE,
        ensures
            r@ == (PacketView { ldata: ldata@, rdata: rdata@, timestamp: time }),
            r@.wf(),
    {
        Packet { ldata: copy_words(ldata), rdata: copy_words(rdata), timestamp: time }
    }

    /// Reads a frame from its encoding.
    pub fn parse(bytes: &[u8]) -> (r: Result<Packet, FrameError>)
        ensures
            match r {
                Ok(p) => decode_frame(bytes@) == Some(p@) && p@.wf(),
                Err(e) => decode_frame(bytes@) is None && e == FrameError::MalformedFrame,
            },
    {
        if bytes.len() != BYTE_BUFFER_SIZE {
            return Err(FrameError::MalformedFrame);
        }
        if read_u64_be(bytes, 0) != BUFFER_SIZE as u64 || read_u64_be(bytes, 8 + 4 * BUFFER_SIZE)
            != BUFFER_SIZE as u64 {
            return Err(FrameError::MalformedFrame);
        }
        assert(frame_ok(bytes@));
        match decode_record(bytes) {
            Ok((l, r, t)) => {
                proof {
                    lemma_record_lengths(l@, r@, t);
                    lemma_decode_record(l@, r@, t);
                }
                Ok(Packet { ldata: l, rdata: r, timestamp: t })
            },
            Err(_) => Err(FrameError::MalformedFrame),
        }
    }

    /// The encoding of this frame; `BYTE_BUFFER_SIZE` bytes long.
    pub fn as_bytes(&self) -> (r: Vec<u8>)
        requires
            self@.wf(),
        ensures
            r@ == encode_frame(self@),
            r@.len() == BYTE_BUFFER_SIZE,
    {
        proof {
            lemma_round_trip(self@);
        }
        match encode_record(&self.ldata, &self.rdata, self.timestamp) {
            Ok(b) => b,
            Err(_) => Vec::new(),
        }
    }

    pub fn get_ldata(&self) -> (r: &[u32])
        ensures
            r@ == self@.ldata,
    {
        self.ldata.as_slice()
    }

    pub fn get_rdata(&self) -> (r: &[u32])
        ensures
            r@ == self@.rdata,
    {
        self.rdata.as_slice()
    }

    pub fn get_timestamp(&self) -> (r: u64)
        ensures
            r == self@.timestamp,
    {
        self.timestamp
    }

    /// The sample at absolute time `base + offset`, computed without
    /// overflow for any pair of arguments.
    pub fn sample_at(&self, base: u64, offset: u64) -> (r: (u32, u32))
        requires
            self@.wf(),
        ensures
            r == read_at(self@, base + offset),
    {
        let start = self.timestamp;
        if base >= start {
            let d: u64 = base - start;
            if d < BUFFER_SIZE as u64 && offset < BUFFER_SIZE as u64 - d {
                let idx = (d + offset) as usize;
                (self.ldata[idx], self.rdata[idx])
            } else {
                (0, 0)
            }
        } else {
            let gap: u64 = start - base;
            if offset >= gap && offset - gap < BUFFER_SIZE as u64 {
                let idx = (offset - gap) as usize;
                (self.ldata[idx], self.rdata[idx])
            } else {
                (0, 0)
            }
        }
    }

    /// Whether absolute time `base + offset` lies inside this frame.
    pub fn covers(&self, base: u64, offset: u64) -> (r: bool)
        ensures
            r == active_at(self@.timestamp, base + offset),
    {
        let t = base as u128 + offset as u128;
        t >= self.timestamp as u128 && t < self.timestamp as u128 + BUFFER_SIZE as u128
    }

    /// The sample at absolute time `time`; silence outside the frame.
    pub fn read(&self, time: u64) -> (r: (u32, u32))
        requires
            self@.wf(),
        ensures
            r == read_at(self@, time as int),
    {
        self.sample_at(time, 0)
    }

    /// Whether `time` lies inside this frame.
    pub fn active(&self, time: u64) -> (r: bool)
        ensures
            r == active_at(self@.timestamp, time as int),
    {
        time >= self.timestamp && !self.complete(time)
    }

    /// Whether `time` lies at or past the end of this frame.
    pub fn complete(&self, time: u64) -> (r: bool)
        ensures
            r == complete_at(self@.timestamp, time as int),
    {
        time >= self.timestamp && time - self.timestamp >= BUFFER_SIZE as u64
    }
}

} // verus!
