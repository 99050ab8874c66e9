use mycos::chunk::{Action, Connection, MycosChunk, Section, Trigger};
use mycos::engine::MycosHandle;
use mycos::evolution::{genome_distance, init_population, mutate_seeded, speciate, ChaChaDraws};
use mycos::genome::{Bits, ChunkGene, ConnGene, Genome, GenomeMeta, LinkGene};
use mycos::gpu_eval::{
    evaluate_batch, evaluate_genome, evaluate_task, express, express_chunk, express_link,
    run_episode, Episode, EpisodeMetrics,
};
use mycos::link::Link;
use mycos::mutations::DrawSource;
use mycos::tasks::{t00_wire_echo, t01_xor_2, t02_sr_latch, t04_cross_chunk_relay};
use rand::{RngCore, SeedableRng};
use rand_chacha::ChaCha8Rng;

fn zeros(n: usize) -> Bits {
    Bits::repeat(false, n)
}

fn conn(
    from_section: Section,
    from_index: u32,
    to_section: Section,
    to_index: u32,
    trigger: Trigger,
    action: Action,
    order_tag: u32,
) -> Connection {
    Connection { from_section, to_section, trigger, action, from_index, to_index, order_tag }
}

fn chunk(ni: u32, no: u32, nn: u32, connections: Vec<Connection>) -> MycosChunk {
    MycosChunk {
        input_bits: vec![0; ni.div_ceil(8) as usize],
        output_bits: vec![0; no.div_ceil(8) as usize],
        internal_bits: vec![0; nn.div_ceil(8) as usize],
        input_count: ni,
        output_count: no,
        internal_count: nn,
        connections,
        name: None,
        note: None,
        build_hash: None,
    }
}

fn follower() -> MycosChunk {
    chunk(
        1,
        1,
        1,
        vec![
            conn(Section::Input, 0, Section::Internal, 0, Trigger::On, Action::Enable, 0),
            conn(Section::Input, 0, Section::Internal, 0, Trigger::Off, Action::Disable, 1),
            conn(Section::Internal, 0, Section::Output, 0, Trigger::On, Action::Enable, 0),
            conn(Section::Internal, 0, Section::Output, 0, Trigger::Off, Action::Disable, 1),
        ],
    )
}

fn engine(chunks: Vec<MycosChunk>, links: Vec<Link>) -> MycosHandle {
    let mut h = MycosHandle::new();
    h.install_chunks(chunks).unwrap();
    h.install_links(links).unwrap();
    h
}

fn relay_links() -> Vec<Link> {
    let link = |trigger, action| Link {
        from_chunk: 0,
        from_out_idx: 0,
        trigger,
        action,
        to_chunk: 1,
        to_in_idx: 0,
        order_tag: 0,
    };
    vec![link(Trigger::On, Action::Enable), link(Trigger::Off, Action::Disable)]
}

#[test]
fn relay_task_runs_as_expected() {
    let task = t04_cross_chunk_relay();
    for episode in &task.episodes {
        let mut h = engine(vec![follower(), follower()], relay_links());
        let (metrics, outputs) = run_episode(&mut h, 0, 1, &episode.stimulus, None);
        assert_eq!(outputs, episode.expected);
        assert_eq!(metrics, EpisodeMetrics { rounds: 4, effects: 9, oscillator: false, period: 0 });
    }
}

#[test]
fn wire_echo_task_runs_as_expected() {
    let task = t00_wire_echo();
    let echo = || {
        chunk(
            1,
            1,
            0,
            vec![
                conn(Section::Input, 0, Section::Output, 0, Trigger::On, Action::Enable, 0),
                conn(Section::Input, 0, Section::Output, 0, Trigger::Off, Action::Disable, 0),
            ],
        )
    };
    for episode in &task.episodes {
        let mut h = engine(vec![echo()], vec![]);
        let (metrics, outputs) = run_episode(&mut h, 0, 0, &episode.stimulus, None);
        assert_eq!(outputs, episode.expected);
        assert!(!metrics.oscillator);
        assert!(metrics.rounds <= 1);
    }
}

#[test]
fn xor_task_runs_as_expected() {
    let task = t01_xor_2();
    let xor = || {
        chunk(
            2,
            1,
            2,
            vec![
                conn(Section::Input, 0, Section::Internal, 0, Trigger::On, Action::Enable, 0),
                conn(Section::Input, 1, Section::Internal, 1, Trigger::On, Action::Enable, 0),
                conn(Section::Internal, 0, Section::Output, 0, Trigger::On, Action::Toggle, 0),
                conn(Section::Internal, 1, Section::Output, 0, Trigger::On, Action::Toggle, 0),
            ],
        )
    };
    for episode in &task.episodes {
        let mut h = engine(vec![xor()], vec![]);
        let (metrics, outputs) = run_episode(&mut h, 0, 0, &episode.stimulus, None);
        assert_eq!(outputs, episode.expected);
        assert!(metrics.rounds <= 2);
    }
}

#[test]
fn sr_latch_task_runs_as_expected() {
    let task = t02_sr_latch();
    let latch = || {
        chunk(
            2,
            1,
            1,
            vec![
                conn(Section::Input, 0, Section::Internal, 0, Trigger::On, Action::Enable, 0),
                conn(Section::Input, 1, Section::Internal, 0, Trigger::On, Action::Disable, 1),
                conn(Section::Internal, 0, Section::Output, 0, Trigger::On, Action::Enable, 0),
                conn(Section::Internal, 0, Section::Output, 0, Trigger::Off, Action::Disable, 1),
            ],
        )
    };
    for episode in &task.episodes {
        let mut h = engine(vec![latch()], vec![]);
        let (_, outputs) = run_episode(&mut h, 0, 0, &episode.stimulus, None);
        assert_eq!(outputs, episode.expected);
    }
}

#[test]
fn episodes_report_the_first_oscillation() {
    let mut ring = chunk(
        1,
        0,
        2,
        vec![
            conn(Section::Input, 0, Section::Internal, 0, Trigger::On, Action::Enable, 0),
            conn(Section::Internal, 0, Section::Internal, 1, Trigger::On, Action::Enable, 0),
            conn(Section::Internal, 0, Section::Internal, 0, Trigger::On, Action::Disable, 1),
            conn(Section::Internal, 1, Section::Internal, 0, Trigger::On, Action::Enable, 0),
            conn(Section::Internal, 1, Section::Internal, 1, Trigger::On, Action::Disable, 1),
        ],
    );
    ring.internal_bits[0] = 0;
    let mut h = engine(vec![follower(), ring], vec![]);
    let (metrics, outputs) = run_episode(&mut h, 1, 0, &vec![vec![0], vec![1]], Some(40));
    assert!(metrics.oscillator);
    assert_eq!(metrics.period, 2);
    assert_eq!(outputs, vec![vec![0], vec![0]]);
    let (metrics, outputs) = run_episode(&mut h, 9, 9, &vec![vec![1]], Some(0));
    assert_eq!(outputs, vec![Vec::<u32>::new()]);
    assert_eq!(metrics.rounds, 0);
}

fn follower_gene() -> ChunkGene {
    ChunkGene::new(
        1,
        1,
        1,
        zeros(1),
        zeros(1),
        zeros(1),
        vec![
            ConnGene::new(0, 1, 0, 0, 0, 0, 0).unwrap(),
            ConnGene::new(0, 1, 1, 1, 0, 0, 1).unwrap(),
            ConnGene::new(1, 2, 0, 0, 0, 0, 0).unwrap(),
            ConnGene::new(1, 2, 1, 1, 0, 0, 1).unwrap(),
        ],
    )
}

fn relay_genome() -> Genome {
    Genome::new(
        vec![follower_gene(), follower_gene()],
        vec![
            LinkGene::new(0, 0, 0, 0, 1, 0, 0).unwrap(),
            LinkGene::new(0, 0, 1, 1, 1, 0, 1).unwrap(),
        ],
        GenomeMeta::new(5, "relay".into()),
    )
    .unwrap()
}

#[test]
fn genes_stand_for_chunks_and_links() {
    let c = express_chunk(&follower_gene()).unwrap();
    assert_eq!(c.connections, follower().connections);
    assert_eq!((c.input_count, c.output_count, c.internal_count), (1, 1, 1));
    assert_eq!((c.input_bits, c.output_bits, c.internal_bits), (vec![0], vec![0], vec![0]));
    let mut g = follower_gene();
    g.internals_init = Bits::from_bools(&vec![true]);
    g.nn = 1;
    assert_eq!(express_chunk(&g).unwrap().internal_bits, vec![1]);
    g.conns[0].trigger = 3;
    assert!(express_chunk(&g).is_none());
    let wide = ChunkGene::new(0, 0, 10, zeros(0), zeros(0), Bits::from_bools(&vec![true; 10]), vec![]);
    assert_eq!(express_chunk(&wide).unwrap().internal_bits, vec![0xFF, 0x03]);
    let l = LinkGene::new(1, 2, 2, 1, 3, 4, 5).unwrap();
    assert_eq!(
        express_link(&l),
        Some(Link {
            from_chunk: 1,
            from_out_idx: 2,
            trigger: Trigger::Toggle,
            action: Action::Disable,
            to_chunk: 3,
            to_in_idx: 4,
            order_tag: 5
        })
    );
    let h = express(&relay_genome()).unwrap();
    assert_eq!(h.chunks.len(), 2);
    assert_eq!(h.links.len(), 2);
}

#[test]
fn batch_evaluation_runs_every_episode_from_scratch() {
    let task = t04_cross_chunk_relay();
    let episodes = vec![Episode { inputs: vec![1] }, Episode { inputs: vec![0] }, Episode { inputs: vec![1] }];
    let mut broken = relay_genome();
    broken.chunks[0].conns[0].action = 9;
    let results = evaluate_batch(&vec![relay_genome(), broken], &task, &episodes);
    assert_eq!(results.len(), 2);
    let rounds: Vec<u32> = results[0].metrics.iter().map(|m| m.rounds).collect();
    assert_eq!(rounds, vec![2, 0, 2]);
    let effects: Vec<u32> = results[0].metrics.iter().map(|m| m.effects).collect();
    assert_eq!(effects, vec![3, 0, 3]);
    assert_eq!(results[0].outputs, vec![vec![0], vec![0], vec![0]]);
    assert_eq!(results[1].metrics, vec![EpisodeMetrics::default(); 3]);
    assert_eq!(results[1].outputs, vec![Vec::<u32>::new(); 3]);
    let own = t00_wire_echo();
    let e = evaluate_genome(&relay_genome(), &own, &episodes);
    assert_eq!(e.outputs, vec![vec![1], vec![0], vec![1]]);
}

#[test]
fn distance_counts_chunks_and_connections() {
    let a = relay_genome();
    let mut b = relay_genome();
    assert_eq!(genome_distance(&a, &b), 0);
    b.chunks.pop();
    assert_eq!(genome_distance(&a, &b), 1 + 4);
    assert_eq!(genome_distance(&b, &a), 5);
    b.chunks[0].conns.clear();
    b.chunks.push(follower_gene());
    b.chunks.push(follower_gene());
    assert_eq!(genome_distance(&a, &b), 1 + 0);
}

#[test]
fn species_are_founded_in_order() {
    let with_conns = |n: usize| {
        let mut g = relay_genome();
        g.chunks[0].conns.truncate(n);
        g
    };
    let genomes = vec![with_conns(4), with_conns(0), with_conns(3), with_conns(1), with_conns(2)];
    assert_eq!(speciate(&genomes, None), vec![0, 0, 0, 0, 0]);
    assert_eq!(speciate(&genomes, Some(0)), vec![0, 1, 2, 3, 4]);
    assert_eq!(speciate(&genomes, Some(1)), vec![0, 1, 0, 1, 2]);
    assert_eq!(speciate(&genomes, Some(4)), vec![0, 0, 0, 0, 0]);
    assert_eq!(speciate(&Vec::new(), Some(1)), Vec::<usize>::new());
}

#[test]
fn seeded_mutation_is_repeatable() {
    let mut a = ChaChaDraws::from_seed(42);
    let mut b = ChaChaDraws::from_seed(42);
    let mut c = ChaChaDraws::from_seed(43);
    let xs: Vec<u64> = (0..4).map(|_| a.next_u64()).collect();
    let ys: Vec<u64> = (0..4).map(|_| b.next_u64()).collect();
    let zs: Vec<u64> = (0..4).map(|_| c.next_u64()).collect();
    assert_eq!(xs, ys);
    assert_ne!(xs, zs);
    assert_eq!(a.next_u32(), b.next_u32());
    for seed in 0..30u64 {
        let mut g = relay_genome();
        let mut h = relay_genome();
        mutate_seeded(&mut g, seed);
        mutate_seeded(&mut h, seed);
        assert_eq!(g.meta.seed, seed);
        assert_eq!(g.meta.tag, "relay");
        g.validate().unwrap();
        assert_eq!(g.links, h.links);
        assert_eq!(g.chunks.len(), h.chunks.len());
        for (x, y) in g.chunks.iter().zip(h.chunks.iter()) {
            assert_eq!(x.conns, y.conns);
            assert_eq!(x.internals_init.to_bools(), y.internals_init.to_bools());
        }
    }
    let mut draws = ChaChaDraws::from_seed(7);
    let population = init_population(&relay_genome(), 5, &mut draws);
    assert_eq!(population.len(), 5);
    let mut again = ChaChaDraws::from_seed(7);
    for g in &population {
        g.validate().unwrap();
        assert_eq!(g.meta.seed, again.next_u64());
    }
}

#[test]
fn a_task_is_run_episode_by_episode_from_the_initial_state() {
    let task = t04_cross_chunk_relay();
    let (metrics, outputs) = evaluate_task(&relay_genome(), &task, None).unwrap();
    assert_eq!(outputs.len(), task.episodes.len());
    for (k, episode) in task.episodes.iter().enumerate() {
        assert_eq!(outputs[k], episode.expected);
        assert_eq!(
            metrics[k],
            EpisodeMetrics { rounds: 4, effects: 9, oscillator: false, period: 0 }
        );
    }
    // One round per tick is not enough for the chunks to come to rest.
    let (short, _) = evaluate_task(&relay_genome(), &task, Some(1)).unwrap();
    assert!(short.iter().all(|m| m.rounds <= 2 && !m.oscillator));
    let mut broken = relay_genome();
    broken.links[0].to_chunk = 7;
    assert!(evaluate_task(&broken, &task, None).is_none());
    assert!(express(&broken).is_none());
    let mut odd = relay_genome();
    odd.chunks[1].conns[2].trigger = 8;
    assert!(evaluate_task(&odd, &task, None).is_none());
}

#[test]
fn the_source_reads_the_stream_of_its_seed_in_order() {
    for seed in [0u64, 1, 42, u64::MAX] {
        let mut rng = ChaCha8Rng::seed_from_u64(seed);
        let mut d = ChaChaDraws::from_seed(seed);
        assert_eq!((d.seed, d.at), (seed, 0));
        for _ in 0..63 {
            assert_eq!(d.next_u32(), rng.next_u32());
        }
        assert_eq!(d.at, 63);
        // These two words lie on either side of the end of a buffer.
        assert_eq!(d.next_u64(), rng.next_u64());
        assert_eq!(d.at, 65);
        for k in 0..300u32 {
            if k % 3 == 0 {
                assert_eq!(d.next_u64(), rng.next_u64());
            } else {
                assert_eq!(d.next_u32(), rng.next_u32());
            }
        }
        assert_eq!(d.at, 65 + 400);
        assert_eq!(d.at, rng.get_word_pos());
        assert_eq!(d.seed, seed);
    }
    let mut first = ChaChaDraws::from_seed(3);
    let mut other = ChaChaDraws::from_seed(4);
    assert_ne!(
        (first.next_u64(), first.next_u64()),
        (other.next_u64(), other.next_u64())
    );
}

#[test]
fn the_count_of_places_goes_round() {
    let mut d = ChaChaDraws { seed: 9, at: u128::MAX };
    let mut rng = ChaCha8Rng::seed_from_u64(9);
    rng.set_word_pos(u128::MAX);
    assert_eq!(d.next_u32(), rng.next_u32());
    assert_eq!(d.at, 0);
    assert_eq!(d.next_u32(), rng.next_u32());
    assert_eq!(d.at, 1);
    let mut start = ChaChaDraws::from_seed(9);
    let mut end = ChaChaDraws { seed: 9, at: u128::MAX };
    let pair = end.next_u64();
    assert_eq!(end.at, 1);
    let last = ChaChaDraws { seed: 9, at: u128::MAX }.next_u32();
    assert_eq!(pair, (u64::from(start.next_u32()) << 32) | u64::from(last));
}
