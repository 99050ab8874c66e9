use mycos::crossover::{
    blend_conn, choose_with, cross_bits_with, crossover, crossover_chunk, crossover_chunk_with,
    crossover_links, crossover_links_with, crossover_with, decides_first, draw_chunk_tape,
    draw_link_tape, key_before, pair_up, place, Key, Pair, MAX_CHUNKS, MAX_CONNS_PER_CHUNK,
    MAX_LINKS, MAX_NN_PER_CHUNK,
};
use mycos::genome::{Bits, ChunkGene, ConnGene, Genome, GenomeMeta, LinkGene};
use mycos::mutations::DrawSource;

struct SeqRng {
    vals: Vec<u32>,
    idx: usize,
}

impl DrawSource for SeqRng {
    fn next_u32(&mut self) -> u32 {
        let v = *self.vals.get(self.idx).unwrap_or(&0);
        self.idx += 1;
        v
    }

    fn next_u64(&mut self) -> u64 {
        self.next_u32() as u64
    }
}

fn zeros(n: usize) -> Bits {
    Bits::repeat(false, n)
}

#[test]
fn crossover_aligns_connections_and_links() {
    let conn_a = ConnGene::new(1, 2, 0, 0, 0, 0, 1).unwrap();
    let conn_b = ConnGene::new(1, 2, 1, 1, 0, 0, 5).unwrap();
    let link_a = LinkGene::new(0, 0, 0, 0, 1, 0, 1).unwrap();
    let link_b = LinkGene::new(0, 0, 1, 1, 1, 0, 5).unwrap();
    let chunk0_a = ChunkGene::new(1, 1, 1, zeros(1), zeros(1), zeros(1), vec![conn_a.clone()]);
    let chunk0_b = ChunkGene::new(1, 1, 1, zeros(1), zeros(1), zeros(1), vec![conn_b.clone()]);
    let chunk1_a = ChunkGene::new(1, 0, 0, zeros(1), Bits::new(), Bits::new(), Vec::new());
    let chunk1_b = chunk1_a.clone();
    let a = Genome::new(vec![chunk0_a, chunk1_a], vec![link_a.clone()], GenomeMeta::new(0, "a".into()))
        .unwrap();
    let b = Genome::new(vec![chunk0_b, chunk1_b], vec![link_b.clone()], GenomeMeta::new(1, "b".into()))
        .unwrap();
    let mut rng = SeqRng { vals: vec![0; 64], idx: 0 };
    let child = crossover(&a, &b, &mut rng).unwrap();
    assert_eq!(child.chunks.len(), 2);
    assert_eq!(child.chunks[0].conns.len(), 1);
    let c = &child.chunks[0].conns[0];
    assert_eq!(c.trigger, conn_a.trigger);
    assert_eq!(c.action, conn_a.action);
    assert_eq!(c.order_tag, conn_a.order_tag.max(conn_b.order_tag));
    assert_eq!(child.links.len(), 1);
    let l = &child.links[0];
    assert_eq!(l.trigger, link_a.trigger);
    assert_eq!(l.action, link_a.action);
    assert_eq!(l.order_tag, link_a.order_tag.max(link_b.order_tag));
    assert!(child.validate().is_ok());
}

#[test]
fn odd_draws_take_the_second_parent() {
    let conn_a = ConnGene::new(1, 2, 0, 0, 0, 0, 1).unwrap();
    let conn_b = ConnGene::new(1, 2, 1, 2, 0, 0, 5).unwrap();
    let only_b = ConnGene::new(0, 1, 2, 2, 0, 0, 3).unwrap();
    let a = ChunkGene::new(1, 1, 1, Bits::from_bools(&vec![true]), zeros(1), zeros(1), vec![conn_a]);
    let b = ChunkGene::new(
        1,
        1,
        2,
        zeros(1),
        Bits::from_bools(&vec![true]),
        Bits::from_bools(&vec![true, true]),
        vec![conn_b, only_b],
    );
    // Four bit draws, then for the shared key: trigger, action, tag, tag.
    let mut rng = SeqRng { vals: vec![0, 1, 0, 1, 1, 0, 1, 1], idx: 0 };
    let child = crossover_chunk(&a, &b, &mut rng);
    assert_eq!((child.ni, child.no, child.nn), (1, 1, 2));
    assert_eq!(child.inputs_init.to_bools(), vec![true]);
    assert_eq!(child.outputs_init.to_bools(), vec![true]);
    assert_eq!(child.internals_init.to_bools(), vec![false, true]);
    assert_eq!(
        child.conns,
        vec![only_b, ConnGene::new(1, 2, 1, 0, 0, 0, 5).unwrap()]
    );
    assert_eq!(rng.idx, 8);
}

#[test]
fn child_sizes_are_capped() {
    assert_eq!((MAX_CHUNKS, MAX_CONNS_PER_CHUNK, MAX_LINKS, MAX_NN_PER_CHUNK), (64, 256, 256, 256));
    let wide = ChunkGene::new(0, 0, 300, zeros(0), zeros(0), zeros(300), vec![]);
    let narrow = ChunkGene::new(0, 0, 1, zeros(0), zeros(0), zeros(1), vec![]);
    let mut rng = SeqRng { vals: vec![], idx: 0 };
    let child = crossover_chunk(&narrow, &wide, &mut rng);
    assert_eq!(child.nn, 256);
    assert_eq!(child.internals_init.len(), 256);
    let many = |n: usize| {
        let chunks = (0..n).map(|_| narrow.duplicate()).collect();
        Genome::new(chunks, vec![], GenomeMeta::new(3, "m".into())).unwrap()
    };
    let child = crossover(&many(70), &many(2), &mut rng).unwrap();
    assert_eq!(child.chunks.len(), 64);
    assert_eq!(child.meta.seed, 3);
    assert_eq!(child.meta.tag, "m");
}

#[test]
fn out_of_range_connections_are_dropped() {
    // The internal bit 299 does not survive the cap at 256.
    let far = ConnGene::new(1, 1, 0, 0, 299, 0, 0).unwrap();
    let near = ConnGene::new(1, 1, 0, 0, 1, 0, 0).unwrap();
    let a = ChunkGene::new(0, 0, 300, zeros(0), zeros(0), zeros(300), vec![far, near]);
    let b = ChunkGene::new(0, 0, 1, zeros(0), zeros(0), zeros(1), vec![]);
    let mut rng = SeqRng { vals: vec![], idx: 0 };
    let child = crossover_chunk(&a, &b, &mut rng);
    assert_eq!(child.conns, vec![near]);
}

#[test]
fn pairs_come_in_key_order() {
    let k = |k0, k1, k2, k3| Key { k0, k1, k2, k3 };
    assert!(key_before(k(0, 9, 9, 9), k(1, 0, 0, 0)));
    assert!(key_before(k(1, 0, 0, 0), k(1, 0, 0, 1)));
    assert!(!key_before(k(1, 0, 0, 1), k(1, 0, 0, 1)));
    assert!(!key_before(k(1, 0, 1, 0), k(1, 0, 0, 1)));
    let mut pairs: Vec<Pair<u8>> = Vec::new();
    place(&mut pairs, k(1, 0, 0, 0), 10, true);
    place(&mut pairs, k(0, 0, 0, 5), 20, false);
    place(&mut pairs, k(1, 0, 0, 0), 30, false);
    place(&mut pairs, k(0, 0, 0, 5), 40, false);
    place(&mut pairs, k(0, 7, 0, 0), 50, true);
    let got: Vec<(u32, u32, Option<u8>, Option<u8>)> =
        pairs.iter().map(|p| (p.key.k0, p.key.k1, p.a, p.b)).collect();
    assert_eq!(
        got,
        vec![(0, 0, None, Some(40)), (0, 7, Some(50), None), (1, 0, Some(10), Some(30))]
    );
    let a = vec![ConnGene::new(1, 2, 0, 0, 3, 3, 0).unwrap(), ConnGene::new(0, 1, 0, 0, 1, 1, 0).unwrap()];
    let b = vec![ConnGene::new(1, 2, 2, 2, 3, 3, 9).unwrap()];
    let pairs = pair_up(&a, &b);
    assert_eq!(pairs.len(), 2);
    assert_eq!((pairs[0].a, pairs[0].b), (Some(a[1]), None));
    assert_eq!((pairs[1].a, pairs[1].b), (Some(a[0]), Some(b[0])));
}

#[test]
fn blending_takes_what_the_decisions_say() {
    let x = ConnGene::new(1, 2, 0, 1, 3, 3, 4).unwrap();
    let y = ConnGene::new(1, 2, 2, 0, 3, 3, 9).unwrap();
    let got = |t, a, h, f| {
        let c = blend_conn(Some(x), Some(y), t, a, h, f);
        (c.trigger, c.action, c.order_tag)
    };
    assert_eq!(got(true, true, true, true), (0, 1, 9));
    assert_eq!(got(false, true, false, true), (2, 1, 4));
    assert_eq!(got(true, false, false, false), (0, 0, 9));
    assert_eq!(blend_conn(Some(x), None, false, false, false, false), x);
    assert_eq!(blend_conn(None, Some(y), true, true, true, true), y);
}

#[test]
fn a_draw_beyond_the_tape_is_zero() {
    let tape = vec![1, 2, 3];
    assert!(!decides_first(&tape, 0));
    assert!(decides_first(&tape, 1));
    assert!(!decides_first(&tape, 2));
    assert!(decides_first(&tape, 3));
    assert!(decides_first(&tape, u128::MAX));
}

#[test]
fn decisions_take_three_or_four_draws() {
    assert_eq!(choose_with(false, &vec![1, 1, 1, 1], 0), ((true, true, true, true), 0));
    assert_eq!(choose_with(true, &vec![1, 0, 0, 1], 0), ((false, true, true, true), 3));
    assert_eq!(choose_with(true, &vec![0, 1, 1, 1], 0), ((true, false, false, false), 4));
    assert_eq!(choose_with(true, &vec![9, 0, 1, 1, 0], 1), ((true, false, false, true), 5));
}

#[test]
fn bits_are_crossed_by_their_draws() {
    let a = Bits::from_bools(&vec![true, true, false]);
    let b = Bits::from_bools(&vec![false, false, true, true]);
    let out = cross_bits_with(&a, &b, 5, &vec![7, 0, 1, 0, 1, 1, 0], 1);
    // Draws 0, 1, 0, 1, 1: first, second, first, second, second.
    assert_eq!(out.to_bools(), vec![true, false, false, true, false]);
}

#[test]
fn a_chunk_crossed_under_a_tape() {
    let conn_a = ConnGene::new(1, 2, 0, 0, 0, 0, 1).unwrap();
    let conn_b = ConnGene::new(1, 2, 1, 2, 0, 0, 5).unwrap();
    let only_b = ConnGene::new(0, 1, 2, 2, 0, 0, 3).unwrap();
    let a = ChunkGene::new(1, 1, 1, Bits::from_bools(&vec![true]), zeros(1), zeros(1), vec![conn_a]);
    let b = ChunkGene::new(
        1,
        1,
        2,
        zeros(1),
        Bits::from_bools(&vec![true]),
        Bits::from_bools(&vec![true, true]),
        vec![conn_b, only_b],
    );
    let child = crossover_chunk_with(&a, &b, &vec![0, 1, 0, 1, 1, 0, 1, 1]);
    assert_eq!((child.ni, child.no, child.nn), (1, 1, 2));
    assert_eq!(child.inputs_init.to_bools(), vec![true]);
    assert_eq!(child.outputs_init.to_bools(), vec![true]);
    assert_eq!(child.internals_init.to_bools(), vec![false, true]);
    assert_eq!(child.conns, vec![only_b, ConnGene::new(1, 2, 1, 0, 0, 0, 5).unwrap()]);
    // With an empty tape every draw is zero: the first parent decides,
    // and the higher tag is taken.
    let child = crossover_chunk_with(&a, &b, &Vec::new());
    assert_eq!(child.inputs_init.to_bools(), vec![true]);
    assert_eq!(child.outputs_init.to_bools(), vec![false]);
    assert_eq!(child.internals_init.to_bools(), vec![false, false]);
    assert_eq!(child.conns, vec![only_b, ConnGene::new(1, 2, 0, 0, 0, 0, 5).unwrap()]);
}

#[test]
fn drawing_and_crossing_agree() {
    let conn_a = ConnGene::new(1, 2, 0, 0, 0, 0, 1).unwrap();
    let conn_b = ConnGene::new(1, 2, 1, 2, 0, 0, 5).unwrap();
    let a = ChunkGene::new(2, 1, 1, zeros(2), zeros(1), zeros(1), vec![conn_a]);
    let b = ChunkGene::new(1, 1, 1, zeros(1), zeros(1), zeros(1), vec![conn_b]);
    let vals: Vec<u32> = vec![5, 4, 3, 2, 9, 8, 7, 6, 1, 1, 1];
    let mut rng = SeqRng { vals: vals.clone(), idx: 0 };
    let tape = draw_chunk_tape(&a, &b, &mut rng);
    // Four bit draws, then trigger, action, and two for the tag.
    assert_eq!(tape, vec![5, 4, 3, 2, 9, 8, 7, 6]);
    assert_eq!(rng.idx, 8);
    let mut again = SeqRng { vals, idx: 0 };
    let drawn = crossover_chunk(&a, &b, &mut again);
    let taped = crossover_chunk_with(&a, &b, &tape);
    assert_eq!(drawn.conns, taped.conns);
    assert_eq!(drawn.conns, vec![ConnGene::new(1, 2, 1, 0, 0, 0, 1).unwrap()]);
    assert_eq!(drawn.inputs_init.to_bools(), taped.inputs_init.to_bools());
}

#[test]
fn links_out_of_range_take_no_draw() {
    let chunk = |ni: u32, no: u32| {
        ChunkGene::new(ni, no, 0, zeros(ni as usize), zeros(no as usize), Bits::new(), vec![])
    };
    let chunks = vec![chunk(1, 2), chunk(2, 1)];
    let a = vec![
        LinkGene::new(0, 1, 0, 0, 1, 1, 2).unwrap(),
        LinkGene::new(0, 5, 0, 0, 1, 0, 0).unwrap(),
        LinkGene::new(1, 0, 2, 1, 0, 0, 4).unwrap(),
    ];
    let b = vec![
        LinkGene::new(0, 1, 1, 2, 1, 1, 7).unwrap(),
        LinkGene::new(0, 5, 1, 1, 1, 0, 0).unwrap(),
        LinkGene::new(3, 0, 0, 0, 0, 0, 0).unwrap(),
    ];
    let mut rng = SeqRng { vals: vec![1, 0, 1, 0, 1, 1, 1, 1], idx: 0 };
    let tape = draw_link_tape(&a, &b, &chunks, &mut rng);
    assert_eq!(tape, vec![1, 0, 1, 0]);
    let links = crossover_links_with(&a, &b, &chunks, &tape);
    assert_eq!(
        links,
        vec![LinkGene::new(0, 1, 1, 0, 1, 1, 2).unwrap(), LinkGene::new(1, 0, 2, 1, 0, 0, 4).unwrap()]
    );
    let mut again = SeqRng { vals: vec![1, 0, 1, 0, 1, 1, 1, 1], idx: 0 };
    assert_eq!(crossover_links(&a, &b, &chunks, &mut again), links);
    assert_eq!(again.idx, 4);
}

#[test]
fn a_genome_crossed_under_tapes() {
    let conn_a = ConnGene::new(1, 2, 0, 0, 0, 0, 1).unwrap();
    let conn_b = ConnGene::new(1, 2, 1, 1, 0, 0, 5).unwrap();
    let link_a = LinkGene::new(0, 0, 0, 0, 1, 0, 1).unwrap();
    let link_b = LinkGene::new(0, 0, 1, 1, 1, 0, 5).unwrap();
    let chunk0_a = ChunkGene::new(1, 1, 1, zeros(1), zeros(1), zeros(1), vec![conn_a]);
    let chunk0_b = ChunkGene::new(1, 1, 1, zeros(1), zeros(1), zeros(1), vec![conn_b]);
    let chunk1 = ChunkGene::new(1, 0, 0, zeros(1), Bits::new(), Bits::new(), Vec::new());
    let lone = ChunkGene::new(0, 2, 0, Bits::new(), zeros(2), Bits::new(), Vec::new());
    let a = Genome::new(
        vec![chunk0_a, chunk1.duplicate(), lone],
        vec![link_a],
        GenomeMeta::new(7, "a".into()),
    )
    .unwrap();
    let b = Genome::new(vec![chunk0_b, chunk1], vec![link_b], GenomeMeta::new(1, "b".into()))
        .unwrap();
    // Chunk 0: three bit draws, then trigger of the second parent,
    // action of the first, the tag of the second. The links: all of the
    // second parent.
    let tapes = vec![vec![0, 0, 0, 1, 0, 1, 1], vec![], vec![], vec![1, 1, 1, 1]];
    let child = crossover_with(&a, &b, &tapes).unwrap();
    assert_eq!(child.meta.seed, 7);
    assert_eq!(child.meta.tag, "a");
    assert_eq!(child.chunks.len(), 3);
    assert_eq!(child.chunks[0].conns, vec![ConnGene::new(1, 2, 1, 0, 0, 0, 5).unwrap()]);
    assert_eq!((child.chunks[1].ni, child.chunks[1].no, child.chunks[1].nn), (1, 0, 0));
    assert_eq!((child.chunks[2].ni, child.chunks[2].no, child.chunks[2].nn), (0, 2, 0));
    assert_eq!(child.links, vec![link_b]);
    // Without tapes the first parent decides and the higher tag wins.
    let child = crossover_with(&a, &b, &Vec::new()).unwrap();
    assert_eq!(child.chunks[0].conns, vec![ConnGene::new(1, 2, 0, 0, 0, 0, 5).unwrap()]);
    assert_eq!(child.links, vec![LinkGene::new(0, 0, 0, 0, 1, 0, 5).unwrap()]);
}

#[test]
fn valid_parents_always_have_a_child() {
    let a = Genome::new(
        vec![
            ChunkGene::new(
                2,
                1,
                2,
                Bits::from_bools(&vec![true, false]),
                zeros(1),
                zeros(2),
                vec![
                    ConnGene::new(0, 1, 0, 0, 1, 1, 4).unwrap(),
                    ConnGene::new(1, 2, 2, 1, 1, 0, 4).unwrap(),
                    ConnGene::new(1, 1, 1, 2, 0, 1, 0).unwrap(),
                ],
            ),
            ChunkGene::new(1, 1, 0, zeros(1), zeros(1), Bits::new(), vec![]),
        ],
        vec![LinkGene::new(0, 0, 0, 1, 1, 0, 3).unwrap(), LinkGene::new(1, 0, 2, 2, 0, 1, 0).unwrap()],
        GenomeMeta::new(11, "first".into()),
    )
    .unwrap();
    let b = Genome::new(
        vec![ChunkGene::new(
            1,
            2,
            300,
            zeros(1),
            Bits::from_bools(&vec![true, true]),
            zeros(300),
            vec![
                ConnGene::new(0, 1, 2, 2, 0, 299, 1).unwrap(),
                ConnGene::new(1, 2, 0, 0, 1, 0, 9).unwrap(),
                ConnGene::new(1, 2, 1, 1, 299, 1, 2).unwrap(),
            ],
        )],
        vec![LinkGene::new(0, 1, 1, 0, 0, 0, 8).unwrap()],
        GenomeMeta::new(12, "second".into()),
    )
    .unwrap();
    for start in 0..40u32 {
        let vals: Vec<u32> = (0..2000u32).map(|i| (i.wrapping_mul(2654435761).wrapping_add(start)) >> 7).collect();
        let mut rng = SeqRng { vals, idx: 0 };
        let child = crossover(&a, &b, &mut rng).unwrap();
        assert!(child.validate().is_ok());
        assert_eq!(child.chunks.len(), 2);
        assert_eq!(child.chunks[0].nn, 256);
        let mut rng = SeqRng { vals: vec![start; 4000], idx: 0 };
        let child = crossover(&b, &a, &mut rng).unwrap();
        assert!(child.validate().is_ok());
        assert_eq!(child.meta.seed, 12);
    }
}
