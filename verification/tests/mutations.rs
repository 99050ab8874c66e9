use mycos::genome::{Bits, ChunkGene, ConnGene, Genome, GenomeMeta, LinkGene};
use mycos::mutations::{
    add_connection, add_connection_at, add_internal_bit, add_link, apply_with_retry,
    bump_order_tag, bump_order_tag_at, draw_passes, flip_action, flip_trigger, gate_insert,
    init_state_tweak, mutate, nth_operator, remove_connection, remove_internal_bit,
    remove_internal_bit_at, remove_link, rewire_target, DrawSource, Operator,
};
use rand::rngs::mock::StepRng;
use rand::{Rng, RngCore};

struct Step(StepRng);

impl DrawSource for Step {
    fn next_u32(&mut self) -> u32 {
        self.0.next_u32()
    }

    fn next_u64(&mut self) -> u64 {
        self.0.next_u64()
    }
}

struct SeqRng {
    values: Vec<u32>,
    idx: usize,
}

impl DrawSource for SeqRng {
    fn next_u32(&mut self) -> u32 {
        let v = *self.values.get(self.idx).unwrap_or(&0);
        self.idx += 1;
        v
    }

    fn next_u64(&mut self) -> u64 {
        DrawSource::next_u32(self) as u64
    }
}

fn zeros(n: usize) -> Bits {
    Bits::repeat(false, n)
}

fn simple_genome() -> Genome {
    let chunk = ChunkGene::new(1, 1, 1, zeros(1), zeros(1), zeros(1), vec![]);
    Genome::new(vec![chunk], vec![], GenomeMeta::new(0, "t".into())).unwrap()
}

#[test]
fn test_add_connection() {
    let mut genome = simple_genome();
    let mut rng = Step(StepRng::new(0, 1));
    add_connection(&mut genome, &mut rng);
    genome.sort();
    genome.validate().unwrap();
    assert_eq!(genome.chunks[0].conns.len(), 1);
}

#[test]
fn test_remove_connection() {
    let mut genome = simple_genome();
    let mut rng = Step(StepRng::new(0, 0));
    add_connection(&mut genome, &mut rng);
    remove_connection(&mut genome, &mut rng);
    genome.sort();
    genome.validate().unwrap();
    assert_eq!(genome.chunks[0].conns.len(), 0);
}

#[test]
fn test_rewire_target() {
    let chunk = ChunkGene::new(
        0,
        0,
        2,
        zeros(0),
        zeros(0),
        zeros(2),
        vec![ConnGene::new(1, 1, 0, 0, 0, 0, 0).unwrap()],
    );
    let mut genome = Genome::new(vec![chunk], vec![], GenomeMeta::new(0, "t".into())).unwrap();
    let mut rng = Step(StepRng::new(1, 0));
    rewire_target(&mut genome, &mut rng);
    genome.sort();
    genome.validate().unwrap();
    assert_eq!(genome.chunks[0].conns[0].to_index, 1);
}

#[test]
fn test_flip_trigger() {
    let mut genome = simple_genome();
    let mut rng = Step(StepRng::new(0, 0));
    add_connection(&mut genome, &mut rng);
    flip_trigger(&mut genome, &mut rng);
    assert_eq!(genome.chunks[0].conns[0].trigger, 1);
}

#[test]
fn test_flip_action() {
    let mut genome = simple_genome();
    let mut rng = Step(StepRng::new(0, 0));
    add_connection(&mut genome, &mut rng);
    flip_action(&mut genome, &mut rng);
    assert_eq!(genome.chunks[0].conns[0].action, 1);
}

#[test]
fn test_bump_order_tag() {
    let chunk = ChunkGene::new(
        0,
        1,
        1,
        zeros(0),
        zeros(1),
        zeros(1),
        vec![
            ConnGene::new(1, 2, 0, 0, 0, 0, 0).unwrap(),
            ConnGene::new(1, 2, 0, 0, 0, 0, 1).unwrap(),
        ],
    );
    let mut genome = Genome::new(vec![chunk], vec![], GenomeMeta::new(0, "t".into())).unwrap();
    let old = genome.chunks[0].conns[0].order_tag;
    let mut rng = Step(StepRng::new(0, 0));
    bump_order_tag(&mut genome, &mut rng);
    assert!(genome.chunks[0].conns[0].order_tag > old);
    genome.sort();
    genome.validate().unwrap();
}

#[test]
fn test_add_internal_bit() {
    let mut genome = simple_genome();
    let mut rng = Step(StepRng::new(0, 0));
    add_internal_bit(&mut genome, &mut rng);
    assert_eq!(genome.chunks[0].nn, 2);
    assert_eq!(genome.chunks[0].internals_init.len(), 2);
}

#[test]
fn test_remove_internal_bit() {
    let chunk = ChunkGene::new(
        0,
        0,
        2,
        zeros(0),
        zeros(0),
        zeros(2),
        vec![ConnGene::new(1, 1, 0, 0, 0, 0, 0).unwrap()],
    );
    let mut genome = Genome::new(vec![chunk], vec![], GenomeMeta::new(0, "t".into())).unwrap();
    let mut rng = Step(StepRng::new(0, 0));
    remove_internal_bit(&mut genome, &mut rng);
    assert_eq!(genome.chunks[0].nn, 1);
    assert_eq!(genome.chunks[0].internals_init.len(), 1);
}

fn two_chunks(links: Vec<LinkGene>) -> Genome {
    let chunk_a = ChunkGene::new(0, 1, 0, zeros(0), zeros(1), zeros(0), vec![]);
    let chunk_b = ChunkGene::new(1, 0, 0, zeros(1), zeros(0), zeros(0), vec![]);
    Genome::new(vec![chunk_a, chunk_b], links, GenomeMeta::new(0, "t".into())).unwrap()
}

#[test]
fn test_add_link() {
    let mut genome = two_chunks(vec![]);
    let mut rng = SeqRng { values: vec![0, 1, 0, 0, 0, 0], idx: 0 };
    add_link(&mut genome, &mut rng);
    genome.sort();
    genome.validate().unwrap();
    assert_eq!(genome.links.len(), 1);
}

#[test]
fn test_remove_link() {
    let link = LinkGene::new(0, 0, 0, 0, 1, 0, 0).unwrap();
    let mut genome = two_chunks(vec![link]);
    let mut rng = Step(StepRng::new(0, 0));
    remove_link(&mut genome, &mut rng);
    assert_eq!(genome.links.len(), 0);
}

#[test]
fn test_init_state_tweak() {
    let mut genome = simple_genome();
    let mut rng = Step(StepRng::new(0, 0));
    init_state_tweak(&mut genome, &mut rng);
    assert!(genome.chunks[0].internals_init.get(0));
}

#[test]
fn added_connection_is_what_the_picks_select() {
    let chunk = ChunkGene::new(3, 4, 5, zeros(3), zeros(4), zeros(5), vec![]);
    let mut genome = Genome::new(vec![chunk], vec![], GenomeMeta::new(0, "t".into())).unwrap();
    add_connection_at(&mut genome, 7, 5, 11, 13, 4, 8);
    assert_eq!(genome.chunks[0].conns, vec![ConnGene::new(1, 2, 1, 2, 1, 1, 0).unwrap()]);
    add_connection_at(&mut genome, 0, 2, 6, 6, 0, 0);
    add_connection_at(&mut genome, 0, 0, 2, 9, 0, 0);
    let got: Vec<(u8, u32, u8, u32, u32)> = genome.chunks[0]
        .conns
        .iter()
        .map(|c| (c.from_section, c.from_index, c.to_section, c.to_index, c.order_tag))
        .collect();
    assert_eq!(got, vec![(0, 2, 1, 4, 0), (1, 1, 2, 1, 0), (1, 1, 2, 2, 1)]);
    genome.validate().unwrap();
}

#[test]
fn bump_keeps_tags_strictly_increasing() {
    let conns = vec![
        ConnGene::new(1, 2, 0, 0, 0, 0, 0).unwrap(),
        ConnGene::new(1, 2, 1, 0, 0, 1, 1).unwrap(),
        ConnGene::new(1, 2, 2, 0, 0, 2, 2).unwrap(),
    ];
    let chunk = ChunkGene::new(0, 3, 1, zeros(0), zeros(3), zeros(1), conns);
    let mut genome = Genome::new(vec![chunk], vec![], GenomeMeta::new(0, "t".into())).unwrap();
    bump_order_tag_at(&mut genome, 0, 0, 1);
    let got: Vec<(u8, u32)> =
        genome.chunks[0].conns.iter().map(|c| (c.trigger, c.order_tag)).collect();
    assert_eq!(got, vec![(1, 1), (0, 2), (2, 3)]);
    let mut at_the_top = genome.duplicate();
    at_the_top.chunks[0].conns[1].order_tag = u32::MAX - 1;
    at_the_top.chunks[0].conns[2].order_tag = u32::MAX;
    // The tag itself would run over.
    bump_order_tag_at(&mut at_the_top, 0, 2, 0);
    assert_eq!(at_the_top.chunks[0].conns[2].order_tag, u32::MAX);
    // The tag fits, but the one behind it would have to move past the top.
    bump_order_tag_at(&mut at_the_top, 0, 1, 0);
    let tags: Vec<u32> = at_the_top.chunks[0].conns.iter().map(|c| c.order_tag).collect();
    assert_eq!(tags, vec![1, u32::MAX - 1, u32::MAX]);
    bump_order_tag_at(&mut at_the_top, 0, 0, 4);
    let tags: Vec<u32> = at_the_top.chunks[0].conns.iter().map(|c| c.order_tag).collect();
    assert_eq!(tags, vec![6, u32::MAX - 1, u32::MAX]);
}

#[test]
fn removing_a_bit_shifts_the_indices_above_it() {
    let conns = vec![
        ConnGene::new(1, 1, 0, 0, 0, 2, 0).unwrap(),
        ConnGene::new(1, 2, 0, 0, 2, 0, 0).unwrap(),
        ConnGene::new(0, 1, 0, 0, 0, 3, 0).unwrap(),
    ];
    let bits = Bits::from_bools(&vec![true, false, true, false]);
    let chunk = ChunkGene::new(1, 1, 4, zeros(1), zeros(1), bits, conns);
    let mut genome = Genome::new(vec![chunk], vec![], GenomeMeta::new(0, "t".into())).unwrap();
    remove_internal_bit_at(&mut genome, 0, 0);
    assert_eq!(genome.chunks[0].nn, 3);
    assert_eq!(genome.chunks[0].internals_init.to_bools(), vec![true, true, false]);
    let got: Vec<(u8, u32, u8, u32)> = genome.chunks[0]
        .conns
        .iter()
        .map(|c| (c.from_section, c.from_index, c.to_section, c.to_index))
        .collect();
    assert_eq!(got, vec![(0, 0, 1, 2), (1, 0, 1, 1), (1, 1, 2, 0)]);
    genome.validate().unwrap();
    remove_internal_bit_at(&mut genome, 0, 0);
    assert_eq!(genome.chunks[0].nn, 3);
}

#[test]
fn chances_are_those_of_the_doubles() {
    assert!(draw_passes(Operator::AddConnection, 0));
    assert!(draw_passes(Operator::AddConnection, 1801439850948198 << 11));
    assert!(!draw_passes(Operator::AddConnection, 1801439850948199 << 11));
    assert!(draw_passes(Operator::GateInsert, (180143985094819 << 11) + 2047));
    assert!(!draw_passes(Operator::GateInsert, 180143985094820 << 11));
    assert!(!draw_passes(Operator::AddConnection, u64::MAX));
    for (op, p) in [
        (Operator::AddConnection, 0.20f64),
        (Operator::RemoveConnection, 0.15),
        (Operator::RewireTarget, 0.15),
        (Operator::FlipTrigger, 0.05),
        (Operator::FlipAction, 0.05),
        (Operator::BumpOrderTag, 0.05),
        (Operator::AddInternalBit, 0.05),
        (Operator::RemoveInternalBit, 0.03),
        (Operator::AddLink, 0.10),
        (Operator::RemoveLink, 0.07),
        (Operator::InitStateTweak, 0.05),
        (Operator::GateInsert, 0.02),
    ] {
        let edge = (p * 9007199254740992.0) as u64;
        for draw in [
            0u64,
            1 << 11,
            1 << 60,
            3 << 61,
            0x3333_3333_3333_3333,
            0x0CCC_CCCC_CCCC_CCCC,
            (edge - 1) << 11,
            edge << 11,
            (edge + 1) << 11,
            (edge + 2) << 11,
        ] {
            let x = (draw >> 11) as f64 * (1.0 / 9007199254740992.0);
            assert_eq!(draw_passes(op, draw), x < p);
            // The double that rand itself makes of these 64 bits.
            let made: f64 = StepRng::new(draw, 0).gen::<f64>();
            assert_eq!(made, x);
            assert_eq!(draw_passes(op, draw), made < p);
        }
    }
    assert_eq!(nth_operator(0), Operator::AddConnection);
    assert_eq!(nth_operator(11), Operator::GateInsert);
}

#[test]
fn mutate_leaves_a_valid_genome() {
    for seed in 0..20u64 {
        let mut genome = two_chunks(vec![LinkGene::new(0, 0, 0, 0, 1, 0, 0).unwrap()]);
        let mut rng = Step(StepRng::new(seed.wrapping_mul(0x9E37_79B9_7F4A_7C15), 0x1234_5678_9ABC_DEF1));
        mutate(&mut genome, &mut rng);
        genome.validate().unwrap();
        assert_eq!(genome.meta.tag, "t");
    }
    let mut genome = simple_genome();
    let mut rng = Step(StepRng::new(0, 0));
    gate_insert(&mut genome, &mut rng);
    apply_with_retry(&mut genome, &mut rng, Operator::AddConnection);
    genome.validate().unwrap();
    assert_eq!(genome.chunks[0].conns.len(), 1);
}
