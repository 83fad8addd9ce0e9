//! What holds of a whole stream: the sender's calls together cut the frames
//! of everything handed to it, and a receiver session holding those frames,
//! in whatever order they arrived, plays back every sample once, at its own
//! time, block after block.
use vstd::prelude::*;
use vstd::arithmetic::div_mod::{
    lemma_fundamental_div_mod, lemma_fundamental_div_mod_converse, lemma_mod_pos_bound,
};

use crate::packet::{active_at, complete_at, read_at, PacketView, BUFFER_SIZE};
use crate::receive::{
    advance, advanced, block_left, block_right, live_at, sample_of, SessionView,
};
use crate::transmit::{chunk, clock_after};

verus! {

/// The first `m` frames that a sender whose clock started at 0 cuts from
/// the streams `l` and `r`.
pub open spec fn frames_of(l: Seq<u32>, r: Seq<u32>, m: nat) -> Seq<PacketView> {
    Seq::new(
        m,
        |k: int| PacketView { ldata: chunk(l, k), rdata: chunk(r, k), timestamp: clock_after(0, k as nat) },
    )
}

/// While it has not wrapped, the clock after `k` frames reads `k` frames'
/// worth of samples.
pub proof fn lemma_clock_counts_samples(k: nat)
    requires
        k * BUFFER_SIZE <= u64::MAX,
    ensures
        clock_after(0, k) == k * BUFFER_SIZE,
    decreases k,
{
    if k > 0 {
        lemma_clock_counts_samples((k - 1) as nat);
    }
}

/// Whether every packet of `pending` is one of `frames`.
pub open spec fn drawn_from(pending: Seq<PacketView>, frames: Seq<PacketView>) -> bool {
    forall|i: int| 0 <= i < pending.len() ==> frames.contains(#[trigger] pending[i])
}

/// Whether a session holds only frames of `frames`, and among them every
/// frame that still has samples at or after its playhead.
pub open spec fn holds_frames_ahead(s: SessionView, frames: Seq<PacketView>) -> bool {
    &&& drawn_from(s.pending, frames)
    &&& forall|k: int|
        0 <= k < frames.len() && s.playhead < (k + 1) * BUFFER_SIZE ==> s.pending.contains(
            #[trigger] frames[k],
        )
}

/// Frame `k` covers exactly the times whose frame number is `k`, and holds
/// there the samples of the streams at those times.
proof fn lemma_frame_covers(l: Seq<u32>, r: Seq<u32>, m: nat, k: int, t: int)
    requires
        m * BUFFER_SIZE <= u64::MAX,
        l.len() >= m * BUFFER_SIZE,
        r.len() >= m * BUFFER_SIZE,
        0 <= k < m,
        0 <= t,
    ensures
        active_at(frames_of(l, r, m)[k].timestamp, t) <==> k == t / (BUFFER_SIZE as int),
        active_at(frames_of(l, r, m)[k].timestamp, t) ==> read_at(frames_of(l, r, m)[k], t) == (
            l[t],
            r[t],
        ),
{
    let f = frames_of(l, r, m);
    let n = BUFFER_SIZE as int;
    lemma_clock_counts_samples(k as nat);
    assert(f[k].timestamp == k * n);
    lemma_fundamental_div_mod(t, n);
    lemma_mod_pos_bound(t, n);
    if active_at(f[k].timestamp, t) {
        lemma_fundamental_div_mod_converse(t, n, k, t - k * n);
        assert(f[k].ldata[t - k * n] == l[t]);
        assert(f[k].rdata[t - k * n] == r[t]);
    }
    if k == t / n {
        assert(k * n <= t < k * n + n);
    }
}

/// Whatever order the frames arrive in, and even with repeats, a session
/// that holds only the sender's frames plays at each time `t` that a frame
/// it holds covers the `t`-th sample of each stream.
pub proof fn lemma_any_order_plays_back(
    l: Seq<u32>,
    r: Seq<u32>,
    m: nat,
    pending: Seq<PacketView>,
    t: int,
)
    requires
        m * BUFFER_SIZE <= u64::MAX,
        l.len() >= m * BUFFER_SIZE,
        r.len() >= m * BUFFER_SIZE,
        0 <= t < m * BUFFER_SIZE,
        drawn_from(pending, frames_of(l, r, m)),
        pending.contains(frames_of(l, r, m)[t / (BUFFER_SIZE as int)]),
    ensures
        sample_of(pending, t) == (l[t], r[t]),
    decreases pending.len(),
{
    let f = frames_of(l, r, m);
    let n = BUFFER_SIZE as int;
    let want = t / n;
    lemma_fundamental_div_mod(t, n);
    lemma_mod_pos_bound(t, n);
    assert(0 <= want < m);
    let j = choose|j: int| 0 <= j < pending.len() && pending[j] == f[want];
    assert(f.contains(pending[0]));
    let k = choose|k: int| 0 <= k < f.len() && f[k] == pending[0];
    lemma_frame_covers(l, r, m, k, t);
    lemma_frame_covers(l, r, m, want, t);
    if !active_at(pending[0].timestamp, t) {
        let rest = pending.drop_first();
        assert(j != 0);
        assert(rest[j - 1] == f[want]);
        assert forall|i: int| 0 <= i < rest.len() implies f.contains(#[trigger] rest[i]) by {
            assert(rest[i] == pending[i + 1]);
        }
        lemma_any_order_plays_back(l, r, m, rest, t);
    }
}

/// Playing a block of `n` samples from a session that holds the sender's
/// frames ahead of its playhead gives the next `n` samples of each stream,
/// and leaves the session, `n` samples further on, holding the frames ahead
/// of its new playhead: block after block, whatever the block sizes, every
/// sample is played once, in order.
pub proof fn lemma_blocks_play_back(l: Seq<u32>, r: Seq<u32>, m: nat, s: SessionView, n: nat)
    requires
        m * BUFFER_SIZE <= u64::MAX,
        l.len() >= m * BUFFER_SIZE,
        r.len() >= m * BUFFER_SIZE,
        holds_frames_ahead(s, frames_of(l, r, m)),
        s.playhead + n <= m * BUFFER_SIZE,
    ensures
        forall|i: int|
            0 <= i < n ==> #[trigger] block_left(s, n)[i] == l[s.playhead + i] && block_right(
                s,
                n,
            )[i] == r[s.playhead + i],
        advance(s, n as int).playhead == s.playhead + n,
        holds_frames_ahead(advance(s, n as int), frames_of(l, r, m)),
{
    let f = frames_of(l, r, m);
    let nn = BUFFER_SIZE as int;
    assert forall|i: int| 0 <= i < n implies #[trigger] block_left(s, n)[i] == l[s.playhead + i]
        && block_right(s, n)[i] == r[s.playhead + i] by {
        let t = s.playhead + i;
        lemma_fundamental_div_mod(t, nn);
        lemma_mod_pos_bound(t, nn);
        assert(s.playhead < (t / nn + 1) * nn);
        assert(s.pending.contains(f[t / nn]));
        lemma_any_order_plays_back(l, r, m, s.pending, t);
    }
    let ph = advanced(s.playhead, n as int);
    assert(ph == s.playhead + n);
    if s.pending.len() > 0 {
        let pred = live_at(ph);
        let kept = s.pending.filter(pred);
        assert forall|i: int| 0 <= i < kept.len() implies f.contains(#[trigger] kept[i]) by {
            assert(kept.contains(kept[i]));
            s.pending.lemma_filter_contains_rev(pred, kept[i]);
            let j = choose|j: int| 0 <= j < s.pending.len() && s.pending[j] == kept[i];
            assert(f.contains(s.pending[j]));
        }
        assert forall|k: int| 0 <= k < f.len() && ph < (k + 1) * nn implies kept.contains(
            #[trigger] f[k],
        ) by {
            assert(s.pending.contains(f[k]));
            let j = choose|j: int| 0 <= j < s.pending.len() && s.pending[j] == f[k];
            lemma_clock_counts_samples(k as nat);
            assert(!complete_at(f[k].timestamp, ph as int));
            s.pending.lemma_filter_contains(pred, j);
        }
    } else {
        if n > 0 {
            let t = s.playhead as int;
            lemma_fundamental_div_mod(t, nn);
            lemma_mod_pos_bound(t, nn);
            assert(s.pending.contains(f[t / nn]));
        }
    }
}

/// Advancing the clock by `a` frames and then by `b` frames advances it by
/// `a + b` frames.
pub proof fn lemma_clock_after_add(t: u64, a: nat, b: nat)
    ensures
        clock_after(clock_after(t, a), b) == clock_after(t, a + b),
    decreases b,
{
    if b > 0 {
        lemma_clock_after_add(t, a, (b - 1) as nat);
        assert((a + b - 1) as nat == a + (b - 1) as nat);
    }
}

/// Two calls of the sender cut the same frames, with the same timestamps,
/// and leave the same samples waiting, as one call on both blocks together.
/// With `b` the samples waiting before, `x` and `y` the two blocks and `k` a
/// frame number: the first call's frame `k` is frame `k` of the whole
/// stream, the second call's frame `k` is frame `m1 + k` of it, and its clock
/// continues from where the first left it. By induction over the calls,
/// every sample handed to the sender is sent once, in order, at its own
/// timestamp, whatever the block sizes.
pub proof fn lemma_calls_compose(b: Seq<u32>, x: Seq<u32>, y: Seq<u32>, t: u64, k: int)
    ensures
        ({
            let n = BUFFER_SIZE as int;
            let first = b + x;
            let m1 = first.len() as int / n;
            let second = first.subrange(m1 * n, first.len() as int) + y;
            let m2 = second.len() as int / n;
            let all = b + x + y;
            &&& m1 + m2 == all.len() as int / n
            &&& 0 <= k < m1 ==> chunk(first, k) == chunk(all, k)
            &&& 0 <= k < m2 ==> chunk(second, k) == chunk(all, m1 + k)
            &&& second.subrange(m2 * n, second.len() as int) == all.subrange(
                (m1 + m2) * n,
                all.len() as int,
            )
            &&& 0 <= k ==> clock_after(clock_after(t, m1 as nat), k as nat) == clock_after(
                t,
                (m1 + k) as nat,
            )
        }),
{
    let n = BUFFER_SIZE as int;
    let first = b + x;
    let all = b + x + y;
    let m1 = first.len() as int / n;
    lemma_fundamental_div_mod(first.len() as int, n);
    lemma_mod_pos_bound(first.len() as int, n);
    let second = first.subrange(m1 * n, first.len() as int) + y;
    assert(second =~= all.subrange(m1 * n, all.len() as int));
    let m2 = second.len() as int / n;
    lemma_fundamental_div_mod(second.len() as int, n);
    lemma_mod_pos_bound(second.len() as int, n);
    lemma_fundamental_div_mod_converse(
        all.len() as int,
        n,
        m1 + m2,
        second.len() as int - m2 * n,
    );
    if 0 <= k < m1 {
        assert(chunk(first, k) =~= chunk(all, k));
    }
    if 0 <= k < m2 {
        assert(chunk(second, k) =~= chunk(all, m1 + k));
    }
    assert(second.subrange(m2 * n, second.len() as int) =~= all.subrange(
        (m1 + m2) * n,
        all.len() as int,
    ));
    if 0 <= k {
        lemma_clock_after_add(t, m1 as nat, k as nat);
    }
}

} // verus!
