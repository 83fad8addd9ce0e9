//! The receiver: a jitter buffer per client connection that turns frames,
//! arriving in bursts, back into a continuous signal.
use vstd::prelude::*;

use crate::link::{
    activate_spec, deactivate_spec, fail_spec, lemma_rebind, port_of, set_channel_spec, Link,
    LinkAction, LinkView,
};
use crate::packet::{active_at, complete_at, read_at, Packet, PacketView, BUFFER_SIZE};

verus! {

/// The views of a sequence of packets.
pub open spec fn packet_views(s: Seq<Packet>) -> Seq<PacketView> {
    s.map_values(|p: Packet| p@)
}

/// The sample at absolute time `t` of the first packet of `pending` whose
/// frame covers `t`; silence if none does.
pub open spec fn sample_of(pending: Seq<PacketView>, t: int) -> (u32, u32)
    decreases pending.len(),
{
    if pending.len() == 0 {
        (0u32, 0u32)
    } else if active_at(pending[0].timestamp, t) {
        read_at(pending[0], t)
    } else {
        sample_of(pending.drop_first(), t)
    }
}

/// The mathematical state of a [`ClientSession`].
pub ghost struct SessionView {
    pub generation: u64,
    pub client_id: u64,
    pub playhead: u64,
    pub pending: Seq<PacketView>,
}

/// The left channel of the next `n` samples of a session.
pub open spec fn block_left(s: SessionView, n: nat) -> Seq<u32> {
    Seq::new(n, |i: int| sample_of(s.pending, s.playhead + i).0)
}

/// The right channel of the next `n` samples of a session.
pub open spec fn block_right(s: SessionView, n: nat) -> Seq<u32> {
    Seq::new(n, |i: int| sample_of(s.pending, s.playhead + i).1)
}

/// `playhead + n`, held at `u64::MAX`.
pub open spec fn advanced(playhead: u64, n: int) -> u64 {
    if playhead + n > u64::MAX {
        u64::MAX
    } else {
        (playhead + n) as u64
    }
}

/// Whether a packet still has samples at or after `playhead`.
pub open spec fn live_at(playhead: u64) -> spec_fn(PacketView) -> bool {
    |p: PacketView| !complete_at(p.timestamp, playhead as int)
}

/// A session after a block of `n` samples was played: a session with
/// pending packets advances its playhead and drops the packets whose frame
/// lies wholly behind it; one without keeps its place.
pub open spec fn advance(s: SessionView, n: int) -> SessionView {
    if s.pending.len() == 0 {
        s
    } else {
        SessionView {
            playhead: advanced(s.playhead, n),
            pending: s.pending.filter(live_at(advanced(s.playhead, n))),
            ..s
        }
    }
}

/// Whether some client with pending packets holds fewer packets than a
/// block of `n` samples spans: the block is then not played at all.
pub open spec fn underrun(sessions: Seq<SessionView>, n: int) -> bool {
    exists|k: int|
        0 <= k < sessions.len() && 0 < #[trigger] sessions[k].pending.len()
            && sessions[k].pending.len() * BUFFER_SIZE < n
}

/// Whether `s` is the session of client `client_id` of the resource of
/// `generation`.
pub open spec fn owned_by(s: SessionView, generation: u64, client_id: u64) -> bool {
    s.generation == generation && s.client_id == client_id
}

/// The index of the last session of client `client_id` of the resource of
/// `generation`, or -1.
pub open spec fn session_index(sessions: Seq<SessionView>, generation: u64, client_id: u64) -> int
    decreases sessions.len(),
{
    if sessions.len() == 0 {
        -1
    } else if owned_by(sessions.last(), generation, client_id) {
        sessions.len() - 1
    } else {
        session_index(sessions.drop_last(), generation, client_id)
    }
}

/// `session_index` finds the session of a client exactly when there is one.
pub proof fn lemma_session_index(sessions: Seq<SessionView>, generation: u64, client_id: u64)
    ensures
        -1 <= session_index(sessions, generation, client_id) < sessions.len(),
        session_index(sessions, generation, client_id) >= 0 ==> owned_by(
            sessions[session_index(sessions, generation, client_id)],
            generation,
            client_id,
        ),
        session_index(sessions, generation, client_id) == -1 <==> forall|i: int|
            0 <= i < sessions.len() ==> !owned_by(#[trigger] sessions[i], generation, client_id),
    decreases sessions.len(),
{
    if sessions.len() > 0 && !owned_by(sessions.last(), generation, client_id) {
        let d = sessions.drop_last();
        lemma_session_index(d, generation, client_id);
        assert forall|i: int| 0 <= i < d.len() implies d[i] == sessions[i] by {}
        let k = session_index(d, generation, client_id);
        if k == -1 {
            assert forall|i: int| 0 <= i < sessions.len() implies !owned_by(
                #[trigger] sessions[i],
                generation,
                client_id,
            ) by {
                if i < d.len() {
                    assert(d[i] == sessions[i]);
                }
            }
        } else {
            assert(d[k] == sessions[k]);
        }
    }
}

/// The mathematical state of a [`Receiver`].
pub ghost struct ReceiverView {
    pub link: LinkView,
    pub sessions: Seq<SessionView>,
}

impl ReceiverView {
    /// Every pending packet holds a full frame, and each client of each
    /// resource has one session.
    pub open spec fn wf(self) -> bool {
        &&& forall|k: int, j: int|
            0 <= k < self.sessions.len() && 0 <= j < self.sessions[k].pending.len()
                ==> (#[trigger] self.sessions[k].pending[j]).wf()
        &&& forall|a: int, b: int|
            #![trigger self.sessions[a], self.sessions[b]]
            0 <= a < b < self.sessions.len() ==> !owned_by(
                self.sessions[a],
                self.sessions[b].generation,
                self.sessions[b].client_id,
            )
    }
}

/// The state after a delivery of `p` from client `client_id` of the resource
/// of `generation`: a delivery from any other resource than the current one
/// (or any delivery while no resource exists) is dropped; a known client's
/// packet joins its queue; an unknown client starts a session at playhead 0.
/// Client ids are scoped by the resource, so a client of a new resource never
/// joins the session of a client of an earlier one.
pub open spec fn deliver_spec(
    v: ReceiverView,
    generation: u64,
    client_id: u64,
    p: PacketView,
) -> ReceiverView {
    if !v.link.active || generation != v.link.generation {
        v
    } else if session_index(v.sessions, generation, client_id) >= 0 {
        let k = session_index(v.sessions, generation, client_id);
        ReceiverView {
            sessions: v.sessions.update(
                k,
                SessionView { pending: v.sessions[k].pending.push(p), ..v.sessions[k] },
            ),
            ..v
        }
    } else {
        ReceiverView {
            sessions: v.sessions.push(
                SessionView { generation, client_id, playhead: 0, pending: seq![p] },
            ),
            ..v
        }
    }
}

/// Changing the channel of a live receiver releases its resource and binds
/// the new channel's port; the sessions and their playheads are kept, and
/// nothing that the old resource reads is delivered any more.
pub proof fn lemma_rebind_drops_old_channel(
    v: ReceiverView,
    channel: u8,
    client_id: u64,
    p: PacketView,
)
    requires
        v.link.active,
        channel != v.link.channel,
    ensures
        ({
            let (l, a) = set_channel_spec(v.link, channel);
            let w = ReceiverView { link: l, ..v };
            &&& a == LinkAction::Reopen(port_of(channel))
            &&& w.link.channel == channel
            &&& w.sessions == v.sessions
            &&& deliver_spec(w, v.link.generation, client_id, p) == w
        }),
{
    lemma_rebind(v.link, channel);
}

/// When the resource is found dead it is rebuilt on the same port; the
/// sessions and their playheads are kept, and nothing that the dead resource
/// reads is delivered any more.
pub proof fn lemma_rebuild_keeps_sessions(v: ReceiverView, client_id: u64, p: PacketView)
    requires
        v.link.active,
    ensures
        ({
            let (l, a) = fail_spec(v.link);
            let w = ReceiverView { link: l, ..v };
            &&& a == LinkAction::Reopen(port_of(v.link.channel))
            &&& w.link.channel == v.link.channel
            &&& w.sessions == v.sessions
            &&& deliver_spec(w, v.link.generation, client_id, p) == w
        }),
{
}

/// One block of stereo samples for one client.
pub struct StereoBlock {
    pub left: Vec<u32>,
    pub right: Vec<u32>,
}

/// One inbound connection: the resource that accepted it, its id there, how
/// many of its samples have been played, and its packets not yet wholly
/// played.
pub struct ClientSession {
    generation: u64,
    client_id: u64,
    playhead: u64,
    pending: Vec<Packet>,
}

impl View for ClientSession {
    type V = SessionView;

    closed spec fn view(&self) -> SessionView {
        SessionView {
            generation: self.generation,
            client_id: self.client_id,
            playhead: self.playhead,
            pending: packet_views(self.pending@),
        }
    }
}

/// The views of a sequence of sessions.
pub open spec fn session_views(s: Seq<ClientSession>) -> Seq<SessionView> {
    s.map_values(|c: ClientSession| c@)
}

/// The sample at time `playhead + offset` of the first packet that covers
/// it.
fn sample_in(pending: &Vec<Packet>, playhead: u64, offset: u64) -> (r: (u32, u32))
    requires
        forall|j: int| 0 <= j < pending@.len() ==> (#[trigger] pending@[j])@.wf(),
    ensures
        r == sample_of(packet_views(pending@), playhead + offset),
{
    let ghost t: int = playhead + offset;
    let ghost all = packet_views(pending@);
    assert(all.subrange(0, all.len() as int) =~= all);
    let mut j: usize = 0;
    while j < pending.len()
        invariant
            j <= pending@.len(),
            all.len() == pending@.len(),
            all == packet_views(pending@),
            t == playhead + offset,
            forall|i: int| 0 <= i < pending@.len() ==> (#[trigger] pending@[i])@.wf(),
            sample_of(all, t) == sample_of(all.subrange(j as int, all.len() as int), t),
        decreases pending@.len() - j,
    {
        let p = &pending[j];
        let ghost rest = all.subrange(j as int, all.len() as int);
        assert(rest.len() > 0);
        assert(rest[0] == p@);
        if p.covers(playhead, offset) {
            return p.sample_at(playhead, offset);
        }
        assert(sample_of(rest, t) == sample_of(rest.drop_first(), t));
        assert(rest.drop_first() =~= all.subrange(j + 1, all.len() as int));
        j += 1;
    }
    (0, 0)
}

/// The next `n` samples of a session's packets from `playhead` on.
fn read_block(pending: &Vec<Packet>, playhead: u64, n: usize) -> (r: StereoBlock)
    requires
        forall|j: int| 0 <= j < pending@.len() ==> (#[trigger] pending@[j])@.wf(),
    ensures
        r.left@ == Seq::new(n as nat, |i: int| sample_of(packet_views(pending@), playhead + i).0),
        r.right@ == Seq::new(n as nat, |i: int| sample_of(packet_views(pending@), playhead + i).1),
{
    let mut left: Vec<u32> = Vec::with_capacity(n);
    let mut right: Vec<u32> = Vec::with_capacity(n);
    let mut i: usize = 0;
    while i < n
        invariant
            i <= n,
            forall|j: int| 0 <= j < pending@.len() ==> (#[trigger] pending@[j])@.wf(),
            left@ == Seq::new(i as nat, |x: int| sample_of(packet_views(pending@), playhead + x).0),
            right@ == Seq::new(i as nat, |x: int| sample_of(packet_views(pending@), playhead + x).1),
        decreases n - i,
    {
        let (l, r) = sample_in(pending, playhead, i as u64);
        left.push(l);
        right.push(r);
        i += 1;
        assert(left@ =~= Seq::new(i as nat, |x: int| sample_of(packet_views(pending@), playhead + x).0));
        assert(right@ =~= Seq::new(i as nat, |x: int| sample_of(packet_views(pending@), playhead + x).1));
    }
    StereoBlock { left, right }
}

/// The packets of `pending`, in order, that still have samples at or after
/// `playhead`.
fn keep_live(pending: Vec<Packet>, playhead: u64) -> (r: Vec<Packet>)
    requires
        forall|j: int| 0 <= j < pending@.len() ==> (#[trigger] pending@[j])@.wf(),
    ensures
        packet_views(r@) == packet_views(pending@).filter(live_at(playhead)),
        forall|j: int| 0 <= j < r@.len() ==> (#[trigger] r@[j])@.wf(),
{
    let ghost orig = pending@;
    let ghost pred = live_at(playhead);
    let mut rest = pending;
    let count = rest.len();
    let mut kept: Vec<Packet> = Vec::new();
    let mut j: usize = 0;
    assert(orig.subrange(0, 0) =~= Seq::<Packet>::empty());
    assert(rest@ =~= orig.subrange(0, orig.len() as int));
    proof {
        reveal(Seq::filter);
        assert(packet_views(orig.subrange(0, 0)) =~= Seq::<PacketView>::empty());
    }
    while j < count
        invariant
            j <= orig.len(),
            count == orig.len(),
            rest@ == orig.subrange(j as int, orig.len() as int),
            pred == live_at(playhead),
            forall|i: int| 0 <= i < orig.len() ==> (#[trigger] orig[i])@.wf(),
            forall|i: int| 0 <= i < kept@.len() ==> (#[trigger] kept@[i])@.wf(),
            packet_views(kept@) == packet_views(orig.subrange(0, j as int)).filter(pred),
        decreases rest@.len(),
    {
        let p = rest.remove(0);
        assert(p == orig[j as int]);
        proof {
            let pre = packet_views(orig.subrange(0, j as int));
            let post = packet_views(orig.subrange(0, j + 1));
            assert(post.drop_last() =~= pre);
            assert(post.last() == p@);
            reveal(Seq::filter);
        }
        let ghost before = kept@;
        if !p.complete(playhead) {
            kept.push(p);
            assert(packet_views(kept@) =~= packet_views(before).push(p@));
        }
        j += 1;
        assert(rest@ =~= orig.subrange(j as int, orig.len() as int));
    }
    assert(orig.subrange(0, j as int) =~= orig);
    kept
}

impl ClientSession {
    pub fn generation(&self) -> (r: u64)
        ensures
            r == self@.generation,
    {
        self.generation
    }

    pub fn client_id(&self) -> (r: u64)
        ensures
            r == self@.client_id,
    {
        self.client_id
    }

    pub fn playhead(&self) -> (r: u64)
        ensures
            r == self@.playhead,
    {
        self.playhead
    }

    pub fn pending_count(&self) -> (r: usize)
        ensures
            r == self@.pending.len(),
    {
        self.pending.len()
    }
}

/// The receiving side of one plugin instance: the channel binding and one
/// session per client of the current network resource.
pub struct Receiver {
    link: Link,
    sessions: Vec<ClientSession>,
}

impl View for Receiver {
    type V = ReceiverView;

    closed spec fn view(&self) -> ReceiverView {
        ReceiverView { link: self.link@, sessions: session_views(self.sessions@) }
    }
}

impl Receiver {
    /// Channel 0, inactive, no sessions.
    pub fn new() -> (r: Receiver)
        ensures
            r@.link == (LinkView { channel: 0, active: false, generation: 0 }),
            r@.sessions.len() == 0,
            r@.wf(),
    {
        let r = Receiver { link: Link::new(), sessions: Vec::new() };
        assert(r@.sessions =~= Seq::<SessionView>::empty());
        r
    }

    pub fn link(&self) -> (r: &Link)
        ensures
            r@ == self@.link,
    {
        &self.link
    }

    /// The identity of the current network resource; deliveries are tagged
    /// with it.
    pub fn generation(&self) -> (r: u64)
        ensures
            r == self@.link.generation,
    {
        self.link.generation()
    }

    pub fn sessions(&self) -> (r: &[ClientSession])
        ensures
            session_views(r@) == self@.sessions,
    {
        self.sessions.as_slice()
    }

    /// Creates the network resource; playback state starts afresh.
    pub fn activate(&mut self) -> (r: LinkAction)
        ensures
            r == activate_spec(old(self)@.link).1,
            final(self)@.link == activate_spec(old(self)@.link).0,
            final(self)@.sessions.len() == 0,
            final(self)@.wf(),
    {
        let a = self.link.activate();
        self.sessions.clear();
        assert(self@.sessions =~= Seq::<SessionView>::empty());
        a
    }

    /// Releases the network resource and the playback state.
    pub fn deactivate(&mut self) -> (r: LinkAction)
        ensures
            r == deactivate_spec(old(self)@.link).1,
            final(self)@.link == deactivate_spec(old(self)@.link).0,
            final(self)@.sessions.len() == 0,
            final(self)@.wf(),
    {
        let a = self.link.deactivate();
        self.sessions.clear();
        assert(self@.sessions =~= Seq::<SessionView>::empty());
        a
    }

    /// Follows the channel control; a rebind replaces the resource and keeps
    /// the sessions and their playheads.
    pub fn set_channel(&mut self, channel: u8) -> (r: LinkAction)
        requires
            old(self)@.wf(),
        ensures
            r == set_channel_spec(old(self)@.link, channel).1,
            final(self)@ == (ReceiverView {
                link: set_channel_spec(old(self)@.link, channel).0,
                ..old(self)@
            }),
            final(self)@.wf(),
    {
        let a = self.link.set_channel(channel);
        assert(self@.sessions == old(self)@.sessions);
        a
    }

    /// The resource was found dead (its handoff queue disconnected): it is
    /// rebuilt, and the sessions and their playheads are kept.
    pub fn connection_lost(&mut self) -> (r: LinkAction)
        requires
            old(self)@.wf(),
        ensures
            r == fail_spec(old(self)@.link).1,
            final(self)@ == (ReceiverView { link: fail_spec(old(self)@.link).0, ..old(self)@ }),
            final(self)@.wf(),
    {
        let a = self.link.fail();
        assert(self@.sessions == old(self)@.sessions);
        a
    }

    /// Whether a block of `n` samples would underrun some client.
    fn underruns(&self, n: usize) -> (r: bool)
        ensures
            r == underrun(self@.sessions, n as int),
    {
        let ghost sv = self@.sessions;
        let mut k: usize = 0;
        while k < self.sessions.len()
            invariant
                k <= self.sessions@.len(),
                sv == session_views(self.sessions@),
                forall|i: int|
                    0 <= i < k ==> !(0 < #[trigger] sv[i].pending.len() && sv[i].pending.len()
                        * BUFFER_SIZE < n),
            decreases self.sessions@.len() - k,
        {
            let c = self.sessions[k].pending.len();
            assert(c == sv[k as int].pending.len());
            if c > 0 && (c as u128) * (BUFFER_SIZE as u128) < n as u128 {
                return true;
            }
            k += 1;
        }
        false
    }

    /// Takes in a frame that a connection of the resource of `generation`
    /// read from client `client_id`; returns whether it was accepted.
    pub fn deliver(&mut self, generation: u64, client_id: u64, packet: Packet) -> (accepted: bool)
        requires
            old(self)@.wf(),
            packet@.wf(),
        ensures
            accepted == (old(self)@.link.active && generation == old(self)@.link.generation),
            final(self)@ == deliver_spec(old(self)@, generation, client_id, packet@),
            final(self)@.wf(),
    {
        if !self.link.is_active() || generation != self.link.generation() {
            return false;
        }
        let ghost sv = self@.sessions;
        let mut idx: usize = 0;
        let mut found = false;
        let mut k: usize = 0;
        assert(sv.subrange(0, 0) =~= Seq::<SessionView>::empty());
        while k < self.sessions.len()
            invariant
                k <= self.sessions@.len(),
                sv == session_views(self.sessions@),
                found ==> idx < k && session_index(sv.subrange(0, k as int), generation, client_id)
                    == idx,
                !found ==> session_index(sv.subrange(0, k as int), generation, client_id) == -1,
            decreases self.sessions@.len() - k,
        {
            assert(sv.subrange(0, k + 1).drop_last() =~= sv.subrange(0, k as int));
            assert(sv[k as int].client_id == self.sessions@[k as int].client_id);
            assert(sv[k as int].generation == self.sessions@[k as int].generation);
            if self.sessions[k].generation == generation && self.sessions[k].client_id == client_id {
                idx = k;
                found = true;
            }
            k += 1;
        }
        assert(sv.subrange(0, sv.len() as int) =~= sv);
        proof {
            lemma_session_index(sv, generation, client_id);
        }
        let ghost pv = packet@;
        if found {
            let mut c = self.sessions.remove(idx);
            let ghost before = c@;
            c.pending.push(packet);
            assert(c@.pending =~= before.pending.push(pv));
            self.sessions.insert(idx, c);
            assert(self@.sessions =~= sv.update(idx as int, SessionView { pending: sv[idx as int].pending.push(pv), ..sv[idx as int] }));
        } else {
            let mut pending: Vec<Packet> = Vec::new();
            pending.push(packet);
            let c = ClientSession { generation, client_id, playhead: 0, pending };
            assert(c@.pending =~= seq![pv]);
            self.sessions.push(c);
            assert(self@.sessions =~= sv.push(
                SessionView { generation, client_id, playhead: 0, pending: seq![pv] },
            ));
        }
        true
    }

    /// Plays one block of `sample_count` samples. When some client with
    /// pending packets holds fewer packets than the block spans, nothing is
    /// played and nothing changes (`None`: the output stays dry). Otherwise
    /// the result holds, for each session in order, its samples at
    /// `playhead + i` for `i < sample_count`, taken from the first pending
    /// packet that covers each time and silent where none does; then every
    /// session with pending packets advances its playhead by the block and
    /// drops the packets wholly behind it.
    pub fn render(&mut self, sample_count: usize) -> (r: Option<Vec<StereoBlock>>)
        requires
            old(self)@.wf(),
        ensures
            final(self)@.wf(),
            underrun(old(self)@.sessions, sample_count as int) ==> r is None && final(self)@
                == old(self)@,
            !underrun(old(self)@.sessions, sample_count as int) ==> {
                &&& r is Some
                &&& r->Some_0@.len() == old(self)@.sessions.len()
                &&& forall|k: int|
                    0 <= k < old(self)@.sessions.len() ==> (#[trigger] r->Some_0@[k]).left@
                        == block_left(old(self)@.sessions[k], sample_count as nat)
                        && r->Some_0@[k].right@ == block_right(
                        old(self)@.sessions[k],
                        sample_count as nat,
                    )
                &&& final(self)@.link == old(self)@.link
                &&& final(self)@.sessions.len() == old(self)@.sessions.len()
                &&& forall|k: int|
                    0 <= k < old(self)@.sessions.len() ==> #[trigger] final(self)@.sessions[k]
                        == advance(old(self)@.sessions[k], sample_count as int)
            },
    {
        if self.underruns(sample_count) {
            return None;
        }
        let ghost ov = self@.sessions;
        let mut rest: Vec<ClientSession> = Vec::new();
        std::mem::swap(&mut self.sessions, &mut rest);
        let ghost orig = rest@;
        let count = rest.len();
        let mut done: Vec<ClientSession> = Vec::new();
        let mut blocks: Vec<StereoBlock> = Vec::new();
        let mut k: usize = 0;
        assert(rest@ =~= orig.subrange(0, orig.len() as int));
        while k < count
            invariant
                ov == session_views(orig),
                k <= orig.len(),
                count == orig.len(),
                rest@ == orig.subrange(k as int, orig.len() as int),
                done@.len() == k,
                blocks@.len() == k,
                self.link@ == old(self)@.link,
                forall|i: int, j: int|
                    0 <= i < ov.len() && 0 <= j < ov[i].pending.len()
                        ==> (#[trigger] ov[i].pending[j]).wf(),
                forall|i: int|
                    0 <= i < k ==> (#[trigger] blocks@[i]).left@ == block_left(
                        ov[i],
                        sample_count as nat,
                    ) && blocks@[i].right@ == block_right(ov[i], sample_count as nat),
                forall|i: int|
                    0 <= i < k ==> #[trigger] done@[i]@ == advance(ov[i], sample_count as int),
                forall|i: int, j: int|
                    0 <= i < k && 0 <= j < done@[i]@.pending.len()
                        ==> (#[trigger] done@[i]@.pending[j]).wf(),
            decreases rest@.len(),
        {
            let c = rest.remove(0);
            assert(c == orig[k as int]);
            assert(ov[k as int] == c@);
            assert forall|j: int| 0 <= j < c.pending@.len() implies (#[trigger] c.pending@[j])@.wf() by {
                assert(ov[k as int].pending[j] == c.pending@[j]@);
            }
            let block = read_block(&c.pending, c.playhead, sample_count);
            let ClientSession { generation, client_id, playhead, pending } = c;
            let next = if pending.len() == 0 {
                ClientSession { generation, client_id, playhead, pending }
            } else {
                let ph = if playhead > u64::MAX - sample_count as u64 {
                    u64::MAX
                } else {
                    playhead + sample_count as u64
                };
                ClientSession { generation, client_id, playhead: ph, pending: keep_live(pending, ph) }
            };
            proof {
                assert forall|j: int| 0 <= j < next@.pending.len() implies (#[trigger] next@.pending[j]).wf() by {
                    assert(next@.pending[j] == next.pending@[j]@);
                }
            }
            done.push(next);
            blocks.push(block);
            k += 1;
            assert(rest@ =~= orig.subrange(k as int, orig.len() as int));
        }
        self.sessions = done;
        assert forall|i: int| 0 <= i < ov.len() implies #[trigger] self@.sessions[i] == advance(ov[i], sample_count as int) by {
            assert(self@.sessions[i] == done@[i]@);
        }
        Some(blocks)
    }
}

} // verus!
