use mycos::scoring::{count_ones, hamming_episode, ScoringSpec};
use mycos::tasks::{
    t00_wire_echo, t01_xor_2, t02_sr_latch, t03_pulse_counter, t04_cross_chunk_relay, Io, Task,
};

fn perfect_outputs(task: &Task) -> Vec<Vec<Vec<u32>>> {
    task.episodes.iter().map(|e| e.expected.clone()).collect()
}

fn flipped_outputs(task: &Task) -> Vec<Vec<Vec<u32>>> {
    let mut outs = perfect_outputs(task);
    if let Some(first_tick) = outs.get_mut(0).and_then(|ep| ep.get_mut(0)) {
        if let Some(word) = first_tick.get_mut(0) {
            *word ^= 1;
        }
    }
    outs
}

fn score(task: &Task, outputs: &[Vec<Vec<u32>>]) -> f32 {
    assert_eq!(task.episodes.len(), outputs.len());
    let mut total_score = 0.0f32;
    for (spec, actual) in task.episodes.iter().zip(outputs.iter()) {
        let (diff_bits, total_bits) =
            hamming_episode(&spec.expected, actual, task.io.outputs.len() as u32);
        total_score += if total_bits == 0 { 1.0 } else { 1.0 - diff_bits as f32 / total_bits as f32 };
    }
    total_score / task.episodes.len() as f32
}

#[test]
fn score_wire_echo() {
    let task = t00_wire_echo();
    let good = perfect_outputs(&task);
    let bad = flipped_outputs(&task);
    assert_eq!(score(&task, &good), 1.0);
    assert!(score(&task, &bad) < 1.0);
}

#[test]
fn score_xor2() {
    let task = t01_xor_2();
    let good = perfect_outputs(&task);
    let bad = flipped_outputs(&task);
    assert_eq!(score(&task, &good), 1.0);
    assert!(score(&task, &bad) < 1.0);
}

#[test]
fn score_sr_latch() {
    let task = t02_sr_latch();
    let good = perfect_outputs(&task);
    let bad = flipped_outputs(&task);
    assert_eq!(score(&task, &good), 1.0);
    assert!(score(&task, &bad) < 1.0);
}

#[test]
fn score_pulse_counter() {
    let task = t03_pulse_counter();
    let good = perfect_outputs(&task);
    let bad = flipped_outputs(&task);
    assert_eq!(score(&task, &good), 1.0);
    assert!(score(&task, &bad) < 1.0);
}

#[test]
fn score_cross_chunk_relay() {
    let task = t04_cross_chunk_relay();
    let good = perfect_outputs(&task);
    let bad = flipped_outputs(&task);
    assert_eq!(score(&task, &good), 1.0);
    assert!(score(&task, &bad) < 1.0);
}

#[test]
fn hamming_counts_are_exact() {
    let expected = vec![vec![0b1010u32, 0], vec![0xFFFF_FFFF, 1]];
    let actual = vec![vec![0b0110u32, 0], vec![0, 3]];
    assert_eq!(hamming_episode(&expected, &actual, 3), (2 + 32 + 1, 6));
    assert_eq!(hamming_episode(&expected, &expected, 40), (0, 80));
    assert_eq!(hamming_episode(&vec![], &vec![], 5), (0, 0));
    assert_eq!(count_ones(0), 0);
    assert_eq!(count_ones(u32::MAX), 32);
    assert_eq!(count_ones(0x8000_0001), 2);
}

#[test]
fn seed_tasks_are_as_published() {
    let t = t00_wire_echo();
    assert_eq!(t.name, "T-00 Wire-Echo");
    assert_eq!(t.io.inputs, vec![Io { chunk_id: 0, bit_idx: 0 }]);
    assert_eq!(t.io.outputs, vec![Io { chunk_id: 0, bit_idx: 0 }]);
    assert_eq!(t.episodes.len(), 2);
    assert_eq!(t.episodes[0].stimulus, vec![vec![1]]);
    assert_eq!(t.episodes[1].expected, vec![vec![0]]);
    assert_eq!((t.tick_budget, t.scoring), (1, ScoringSpec::Hamming));

    let t = t01_xor_2();
    assert_eq!(t.name, "T-01 XOR-2");
    assert_eq!(t.io.inputs, vec![Io { chunk_id: 0, bit_idx: 0 }, Io { chunk_id: 0, bit_idx: 1 }]);
    assert_eq!(t.io.outputs, vec![Io { chunk_id: 0, bit_idx: 2 }]);
    let pairs: Vec<(u32, u32)> =
        t.episodes.iter().map(|e| (e.stimulus[0][0], e.expected[0][0])).collect();
    assert_eq!(pairs, vec![(0, 0), (1, 1), (2, 1), (3, 0)]);
    assert_eq!(t.tick_budget, 1);

    let t = t02_sr_latch();
    assert_eq!(t.name, "T-02 SR-Latch");
    assert_eq!(t.io.inputs, vec![Io { chunk_id: 0, bit_idx: 0 }, Io { chunk_id: 0, bit_idx: 1 }]);
    assert_eq!(t.io.outputs.len(), 1);
    assert_eq!(t.episodes.len(), 1);
    // Set, hold, reset, hold: the reset meets the latch that was set.
    assert_eq!(t.episodes[0].stimulus, vec![vec![1], vec![0], vec![2], vec![0]]);
    assert_eq!(t.episodes[0].expected, vec![vec![1], vec![1], vec![0], vec![0]]);
    assert_eq!(t.tick_budget, 4);

    let t = t03_pulse_counter();
    assert_eq!(t.name, "T-03 Pulse-Counter");
    assert_eq!(t.io.outputs, vec![Io { chunk_id: 0, bit_idx: 1 }, Io { chunk_id: 0, bit_idx: 2 }]);
    assert_eq!(t.episodes[0].stimulus, vec![vec![1], vec![1], vec![1]]);
    assert_eq!(t.episodes[0].expected, vec![vec![1], vec![2], vec![3]]);
    assert_eq!(t.tick_budget, 3);

    let t = t04_cross_chunk_relay();
    assert_eq!(t.name, "T-04 Cross-Chunk Relay");
    assert_eq!(t.io.inputs, vec![Io { chunk_id: 0, bit_idx: 0 }]);
    assert_eq!(t.io.outputs, vec![Io { chunk_id: 1, bit_idx: 0 }]);
    assert_eq!(t.episodes[0].stimulus, vec![vec![1], vec![0]]);
    assert_eq!(t.episodes[0].expected, vec![vec![0], vec![1]]);
    assert_eq!(t.tick_budget, 2);
}
