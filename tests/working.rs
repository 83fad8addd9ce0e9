use feedback::link::LinkAction;
use feedback::packet::{Packet, BUFFER_SIZE};
use feedback::receive::Receiver;
use feedback::transmit::Transmitter;

/// One block through the sender: the dry output, and the wet samples framed
/// and sent through the codec to the receiver.
fn send_block(tx: &mut Transmitter, rx: &mut Receiver, input: &[f32], dry: f32, wet: f32) -> Vec<f32> {
    let wet_bits: Vec<u32> = input.iter().map(|x| (x * wet).to_bits()).collect();
    for p in tx.process(&wet_bits, &wet_bits) {
        let frame = p.as_bytes();
        let decoded = Packet::parse(&frame).unwrap();
        let generation = rx.generation();
        assert!(rx.deliver(generation, 0, decoded));
    }
    input.iter().map(|x| x * dry).collect()
}

/// One block through the receiver: the dry input plus every client's
/// samples times the wet gain, or the dry input alone on an underrun.
fn receive_block(rx: &mut Receiver, input: &[f32], dry: f32, wet: f32) -> (Vec<f32>, Vec<f32>) {
    let mut left: Vec<f32> = input.iter().map(|x| x * dry).collect();
    let mut right = left.clone();
    if let Some(blocks) = rx.render(input.len()) {
        for b in blocks {
            for i in 0..input.len() {
                left[i] += f32::from_bits(b.left[i]) * wet;
                right[i] += f32::from_bits(b.right[i]) * wet;
            }
        }
    }
    (left, right)
}

fn set_up(port: u8, sample_count: usize) -> (Transmitter, Receiver) {
    let mut tx = Transmitter::new();
    let mut rx = Receiver::new();
    rx.activate();
    tx.activate();

    // run once to handle the channel change
    let silence = vec![0.0; sample_count];
    rx.set_channel(port);
    receive_block(&mut rx, &silence, 1.0, 1.0);
    tx.set_channel(port);
    send_block(&mut tx, &mut rx, &vec![1.0; sample_count], 1.0, 1.0);

    // reset state
    rx.deactivate();
    tx.deactivate();
    rx.activate();
    tx.activate();
    (tx, rx)
}

fn test_sample_count(sample_count: usize, port: u8) {
    let (mut tx, mut rx) = set_up(port, sample_count);
    let input = vec![1.0; sample_count];
    send_block(&mut tx, &mut rx, &input, 1.0, 1.0);
    let (l, r) = receive_block(&mut rx, &vec![0.0; sample_count], 1.0, 1.0);
    assert_eq!(input, l);
    assert_eq!(input, r);
}

/// A block size that is not a multiple of the frame: the receiver plays a
/// block only once the sender's frames span it, so the sender runs one
/// block ahead, and what does not fill a frame waits in its accumulator.
fn test_unaligned_sample_count(sample_count: usize, port: u8) {
    let (mut tx, mut rx) = set_up(port, sample_count);
    let input = vec![1.0; sample_count];
    send_block(&mut tx, &mut rx, &input, 1.0, 1.0);
    let (l, _) = receive_block(&mut rx, &vec![0.0; sample_count], 1.0, 1.0);
    assert_eq!(l, vec![0.0; sample_count]);
    send_block(&mut tx, &mut rx, &input, 1.0, 1.0);
    assert_eq!(tx.pending_samples(), (2 * sample_count) % BUFFER_SIZE);
    let (l, r) = receive_block(&mut rx, &vec![0.0; sample_count], 1.0, 1.0);
    assert_eq!(input, l);
    assert_eq!(input, r);
}

#[test]
fn test_working_basic() {
    let sample_count = BUFFER_SIZE;
    test_sample_count(sample_count, 0);
}

#[test]
fn test_working_multi_packet() {
    let sample_count = BUFFER_SIZE * 32;
    test_sample_count(sample_count, 1);
}

#[test]
fn test_working_odd_sample_number_small() {
    let sample_count = BUFFER_SIZE * 2 - 15;
    test_unaligned_sample_count(sample_count, 2);
}

#[test]
fn test_working_odd_sample_number_large() {
    let sample_count = BUFFER_SIZE + 15;
    test_unaligned_sample_count(sample_count, 3);
}

#[test]
fn one_frame_of_a_constant_comes_back() {
    let (mut tx, mut rx) = set_up(4, BUFFER_SIZE);
    let v = 0.375;
    let dry_out = send_block(&mut tx, &mut rx, &vec![v; BUFFER_SIZE], 0.0, 1.0);
    assert_eq!(dry_out, vec![0.0; BUFFER_SIZE]);
    let (l, r) = receive_block(&mut rx, &vec![0.0; BUFFER_SIZE], 0.0, 1.0);
    assert!(l.iter().all(|x| (x - v).abs() < 1e-6));
    assert!(r.iter().all(|x| (x - v).abs() < 1e-6));
}

#[test]
fn four_tagged_quarters_come_back_in_order() {
    let (mut tx, mut rx) = set_up(5, BUFFER_SIZE);
    let input: Vec<f32> = (0..4 * BUFFER_SIZE).map(|i| (i / BUFFER_SIZE + 1) as f32).collect();
    send_block(&mut tx, &mut rx, &input, 1.0, 1.0);
    assert_eq!(rx.sessions()[0].pending_count(), 4);
    let mut out = Vec::new();
    for q in 0..4 {
        let (l, _) = receive_block(&mut rx, &vec![0.0; BUFFER_SIZE], 1.0, 1.0);
        assert!(l.iter().all(|x| *x == (q + 1) as f32));
        out.extend(l);
    }
    assert_eq!(out, input);
    assert_eq!(rx.sessions()[0].pending_count(), 0);
    assert_eq!(rx.sessions()[0].playhead(), 4 * BUFFER_SIZE as u64);
}

#[test]
fn unaligned_blocks_reconstruct_each_sample_once() {
    for &n in &[2 * BUFFER_SIZE - 15, BUFFER_SIZE + 15, 100] {
        let (mut tx, mut rx) = set_up(6, n);
        let total = 6 * n;
        let input: Vec<f32> = (0..total).map(|i| i as f32).collect();
        for c in 0..6 {
            send_block(&mut tx, &mut rx, &input[c * n..(c + 1) * n], 1.0, 1.0);
        }
        let framed = total / BUFFER_SIZE * BUFFER_SIZE;
        assert_eq!(tx.pending_samples(), total - framed);
        assert_eq!(tx.time(), framed as u64);
        let mut out = Vec::new();
        while out.len() + n <= framed {
            let (l, r) = receive_block(&mut rx, &vec![0.0; n], 1.0, 1.0);
            assert_eq!(l, r);
            out.extend(l);
        }
        assert_eq!(out, input[..out.len()].to_vec());
    }
}

#[test]
fn underrun_leaves_the_block_dry() {
    let (mut tx, mut rx) = set_up(7, BUFFER_SIZE);
    send_block(&mut tx, &mut rx, &vec![0.5; BUFFER_SIZE], 1.0, 1.0);
    let before = rx.sessions()[0].playhead();
    let (l, r) = receive_block(&mut rx, &vec![0.25; BUFFER_SIZE + 1], 1.0, 1.0);
    assert_eq!(l, vec![0.25; BUFFER_SIZE + 1]);
    assert_eq!(r, vec![0.25; BUFFER_SIZE + 1]);
    assert!(rx.render(BUFFER_SIZE + 1).is_none());
    assert_eq!(rx.sessions()[0].playhead(), before);
    assert_eq!(rx.sessions()[0].pending_count(), 1);
    assert!(rx.render(BUFFER_SIZE).is_some());
}

#[test]
fn no_clients_plays_nothing_but_the_dry_signal() {
    let mut rx = Receiver::new();
    rx.activate();
    let blocks = rx.render(64).unwrap();
    assert!(blocks.is_empty());
    let (l, _) = receive_block(&mut rx, &vec![0.5; 64], 0.5, 1.0);
    assert_eq!(l, vec![0.25; 64]);
}

#[test]
fn clients_are_summed() {
    let mut rx = Receiver::new();
    rx.activate();
    let g = rx.generation();
    assert!(rx.deliver(g, 0, Packet::new(&vec![1.0f32.to_bits(); BUFFER_SIZE], &vec![0; BUFFER_SIZE], 0)));
    assert!(rx.deliver(g, 1, Packet::new(&vec![2.0f32.to_bits(); BUFFER_SIZE], &vec![0; BUFFER_SIZE], 0)));
    let (l, r) = receive_block(&mut rx, &vec![0.0; 8], 1.0, 1.0);
    assert_eq!(l, vec![3.0; 8]);
    assert_eq!(r, vec![0.0; 8]);
}

#[test]
fn late_packet_plays_silence_before_its_start() {
    let mut rx = Receiver::new();
    rx.activate();
    let g = rx.generation();
    assert!(rx.deliver(g, 9, Packet::new(&vec![7; BUFFER_SIZE], &vec![8; BUFFER_SIZE], 4)));
    let blocks = rx.render(8).unwrap();
    assert_eq!(blocks[0].left, vec![0, 0, 0, 0, 7, 7, 7, 7]);
    assert_eq!(blocks[0].right, vec![0, 0, 0, 0, 8, 8, 8, 8]);
    assert_eq!(rx.sessions()[0].client_id(), 9);
    assert_eq!(rx.sessions()[0].playhead(), 8);
}

#[test]
fn rebind_releases_the_old_port_and_refuses_its_packets() {
    let mut rx = Receiver::new();
    assert_eq!(rx.activate(), LinkAction::Open(21300));
    let old = rx.generation();
    assert!(rx.deliver(old, 0, Packet::new(&vec![1; BUFFER_SIZE], &vec![1; BUFFER_SIZE], 0)));
    rx.render(10).unwrap();
    assert_eq!(rx.set_channel(12), LinkAction::Reopen(21312));
    assert_eq!(rx.link().channel(), 12);
    assert_eq!(rx.link().port(), 21312);
    // the session, its packet and its playhead survive the rebind
    assert_eq!(rx.sessions().len(), 1);
    assert_eq!(rx.sessions()[0].pending_count(), 1);
    assert_eq!(rx.sessions()[0].playhead(), 10);
    // the old resource's readers are no longer heard
    assert!(!rx.deliver(old, 0, Packet::new(&vec![1; BUFFER_SIZE], &vec![1; BUFFER_SIZE], 1024)));
    assert_eq!(rx.sessions()[0].pending_count(), 1);
    assert_ne!(rx.generation(), old);
    // a client of the new resource gets a session of its own, even with the same id
    let new = rx.generation();
    assert!(rx.deliver(new, 0, Packet::new(&vec![2; BUFFER_SIZE], &vec![2; BUFFER_SIZE], 0)));
    assert_eq!(rx.sessions().len(), 2);
    assert_eq!(rx.sessions()[1].generation(), new);
    assert_eq!(rx.sessions()[1].playhead(), 0);
    assert_eq!(rx.set_channel(12), LinkAction::Keep);
}

#[test]
fn lost_connection_keeps_delivered_packets() {
    let mut rx = Receiver::new();
    rx.activate();
    let g = rx.generation();
    assert!(rx.deliver(g, 4, Packet::new(&vec![3; BUFFER_SIZE], &vec![3; BUFFER_SIZE], 0)));
    assert!(rx.deliver(g, 4, Packet::new(&vec![4; BUFFER_SIZE], &vec![4; BUFFER_SIZE], 1024)));
    assert_eq!(rx.connection_lost(), LinkAction::Reopen(21300));
    assert_eq!(rx.sessions()[0].pending_count(), 2);
    let blocks = rx.render(2048).unwrap();
    assert_eq!(blocks[0].left[0], 3);
    assert_eq!(blocks[0].left[2047], 4);
    assert_eq!(rx.sessions()[0].playhead(), 2048);
    rx.deactivate();
    assert!(rx.sessions().is_empty());
}

#[test]
fn link_transitions() {
    let mut tx = Transmitter::new();
    assert_eq!(tx.set_channel(3), LinkAction::Keep);
    assert_eq!(tx.activate(), LinkAction::Open(21303));
    assert_eq!(tx.connection_lost(), LinkAction::Reopen(21303));
    assert_eq!(tx.set_channel(255), LinkAction::Reopen(21555));
    assert_eq!(tx.deactivate(), LinkAction::Close);
    assert_eq!(tx.deactivate(), LinkAction::Keep);
    assert_eq!(tx.connection_lost(), LinkAction::Keep);
    let mut rx = Receiver::new();
    assert_eq!(rx.connection_lost(), LinkAction::Keep);
    assert!(!rx.deliver(rx.generation(), 0, Packet::new(&vec![1; BUFFER_SIZE], &vec![1; BUFFER_SIZE], 0)));
}

#[test]
fn reconnect_keeps_the_sender_clock_and_accumulator() {
    let mut tx = Transmitter::new();
    tx.activate();
    let block: Vec<u32> = (0..1500).collect();
    let sent = tx.process(&block, &block);
    assert_eq!(sent.len(), 1);
    assert_eq!(sent[0].get_timestamp(), 0);
    assert_eq!(sent[0].get_ldata(), &block[..BUFFER_SIZE]);
    tx.connection_lost();
    assert_eq!(tx.pending_samples(), 1500 - BUFFER_SIZE);
    assert_eq!(tx.time(), BUFFER_SIZE as u64);
    let sent = tx.process(&block[..600], &block[..600]);
    assert_eq!(sent.len(), 1);
    assert_eq!(sent[0].get_timestamp(), BUFFER_SIZE as u64);
    assert_eq!(sent[0].get_ldata()[..476], block[BUFFER_SIZE..]);
    assert_eq!(sent[0].get_ldata()[476..], block[..548]);
    tx.deactivate();
    assert_eq!(tx.pending_samples(), 0);
    assert_eq!(tx.time(), 0);
}

#[test]
fn quarters_arriving_out_of_order_play_in_order() {
    let mut rx = Receiver::new();
    rx.activate();
    let g = rx.generation();
    for &q in &[2u32, 0, 3, 1] {
        let tag = (q as f32 + 1.0).to_bits();
        let p = Packet::new(&vec![tag; BUFFER_SIZE], &vec![tag; BUFFER_SIZE], q as u64 * BUFFER_SIZE as u64);
        assert!(rx.deliver(g, 7, p));
    }
    let (l, r) = receive_block(&mut rx, &vec![0.0; 4 * BUFFER_SIZE], 0.0, 1.0);
    let expected: Vec<f32> = (0..4 * BUFFER_SIZE).map(|i| (i / BUFFER_SIZE + 1) as f32).collect();
    assert_eq!(l, expected);
    assert_eq!(r, expected);
    assert_eq!(rx.sessions()[0].playhead(), 4 * BUFFER_SIZE as u64);
    assert_eq!(rx.sessions()[0].pending_count(), 0);
}
