use mycos::chunk::{encode_chunk, Action, Connection, Error, MycosChunk, Section, Trigger};
use mycos::engine::{
    extract_bits, implant_bits, parse_policy, EngineError, Metrics, MycosHandle, EFFECT_BUDGET,
    WINDOW,
};
use mycos::link::LinkError;
use mycos::policy::Policy;
use mycos::scheduler::Termination;

fn conn(
    from_section: Section,
    from_index: u32,
    to_section: Section,
    to_index: u32,
    trigger: Trigger,
    action: Action,
) -> Connection {
    Connection { from_section, to_section, trigger, action, from_index, to_index, order_tag: 0 }
}

fn chunk(ni: u32, no: u32, nn: u32, connections: Vec<Connection>) -> MycosChunk {
    MycosChunk {
        input_bits: vec![0; ni.div_ceil(8) as usize],
        output_bits: vec![0; no.div_ceil(8) as usize],
        internal_bits: vec![0; nn.div_ceil(8) as usize],
        input_count: ni,
        output_count: no,
        internal_count: nn,
        connections,
        name: None,
        note: None,
        build_hash: None,
    }
}

/// Out[0] follows In[0] through Int[0], up and down.
fn follower() -> MycosChunk {
    chunk(
        1,
        1,
        1,
        vec![
            conn(Section::Input, 0, Section::Internal, 0, Trigger::On, Action::Enable),
            conn(Section::Input, 0, Section::Internal, 0, Trigger::Off, Action::Disable),
            conn(Section::Internal, 0, Section::Output, 0, Trigger::On, Action::Enable),
            conn(Section::Internal, 0, Section::Output, 0, Trigger::Off, Action::Disable),
        ],
    )
}

fn link_bytes(
    from_chunk: u32,
    from_out: u32,
    trigger: u8,
    action: u8,
    to_chunk: u32,
    to_in: u32,
) -> Vec<u8> {
    let mut v = Vec::new();
    v.extend_from_slice(&from_chunk.to_le_bytes());
    v.extend_from_slice(&from_out.to_le_bytes());
    v.push(trigger);
    v.push(action);
    v.extend_from_slice(&[0, 0]);
    v.extend_from_slice(&to_chunk.to_le_bytes());
    v.extend_from_slice(&to_in.to_le_bytes());
    v.extend_from_slice(&0u32.to_le_bytes());
    v
}

fn relay() -> MycosHandle {
    let mut h = MycosHandle::new();
    let blobs = vec![encode_chunk(&follower()), encode_chunk(&follower())];
    h.load_chunks(&blobs).unwrap();
    let mut links = link_bytes(0, 0, 0, 0, 1, 0);
    links.extend(link_bytes(0, 0, 1, 1, 1, 0));
    h.load_links(&links).unwrap();
    h
}

#[test]
fn cross_chunk_relay_delays_by_one_tick() {
    let mut h = relay();
    let mut seen = Vec::new();
    for stimulus in [1u32, 0] {
        assert!(h.set_inputs(0, &vec![stimulus]));
        h.tick(None);
        seen.push(h.get_outputs(1).unwrap()[0]);
    }
    assert_eq!(seen, vec![0, 1]);
    h.tick(None);
    assert_eq!(h.get_outputs(1).unwrap(), vec![0]);
}

#[test]
fn tick_reports_rounds_and_effects() {
    let mut h = relay();
    assert!(h.set_inputs(0, &vec![1]));
    let m = h.tick(None);
    // Chunk 0 runs two rounds with one effect each; one link effect follows.
    assert_eq!(m, Metrics { rounds: 2, effects: 3 });
    assert_eq!(m.rounds(), 2);
    assert_eq!(m.effects(), 3);
    assert_eq!(h.get_outputs(0).unwrap(), vec![1]);
    assert_eq!(h.inputs, vec![0b11]);
    let m = h.tick(Some(1));
    assert_eq!(m.rounds, 1);
}

#[test]
fn tick_all_reports_every_chunk() {
    let mut h = relay();
    h.set_inputs(0, &vec![1]);
    let (reports, link_effects) = h.tick_all(None);
    assert_eq!(reports.len(), 2);
    assert_eq!(reports[0].1, Termination::Quiescent);
    assert_eq!(reports[0].0.rounds, 2);
    assert_eq!(reports[0].0.outputs, vec![1]);
    assert_eq!(reports[1].0.rounds, 0);
    assert_eq!(reports[1].0.outputs, vec![0]);
    assert_eq!(link_effects, 1);
    assert_eq!(EFFECT_BUDGET, 5_000_000);
    assert_eq!(WINDOW, 16);
}

#[test]
fn set_inputs_checks_chunk_and_width() {
    let mut h = relay();
    assert!(!h.set_inputs(2, &vec![1]));
    assert!(!h.set_inputs(0, &vec![]));
    assert_eq!(h.inputs, vec![0]);
    assert!(h.set_inputs(1, &vec![1, 7]));
    assert_eq!(h.inputs, vec![0b10]);
    assert_eq!(h.get_outputs(2), None);
}

#[test]
fn policy_names() {
    assert_eq!(parse_policy("freeze_last_stable"), Some(Policy::FreezeLastStable));
    assert_eq!(parse_policy("clamp_commutative"), Some(Policy::ClampCommutative));
    assert_eq!(parse_policy("parity_quench"), Some(Policy::ParityQuench));
    assert_eq!(parse_policy("parity_quenc"), None);
    assert_eq!(parse_policy("parity_quench "), None);
    assert_eq!(parse_policy(""), None);
    let mut h = relay();
    assert_eq!(h.policy, Policy::FreezeLastStable);
    assert!(h.set_policy("parity_quench"));
    assert_eq!(h.policy, Policy::ParityQuench);
    assert!(h.schedulers.iter().all(|s| s.policy == Policy::ParityQuench));
    assert!(!h.set_policy("quench"));
    assert_eq!(h.policy, Policy::ParityQuench);
}

#[test]
fn loading_reports_the_first_bad_chunk() {
    let mut h = relay();
    let good = encode_chunk(&follower());
    let mut bad_magic = good.clone();
    bad_magic[0] = 0;
    let mut bad_edge = good.clone();
    bad_edge[37] = 2;
    assert_eq!(
        h.load_chunks(&vec![good.clone(), bad_edge.clone(), bad_magic.clone()]),
        Err(EngineError::Chunk {
            index: 1,
            error: Error::InvalidConnectionEdge { from: Section::Input, to: Section::Output }
        })
    );
    assert_eq!(
        h.load_chunks(&vec![bad_magic, bad_edge]),
        Err(EngineError::Chunk { index: 0, error: Error::InvalidMagic })
    );
    assert_eq!(h.chunks.len(), 2);
    assert_eq!(h.links.len(), 2);
    assert_eq!(h.load_chunks(&vec![good]), Ok(()));
    assert_eq!(h.chunks.len(), 1);
    assert_eq!(h.links.len(), 0);
}

#[test]
fn loading_validates_links_against_the_chunks() {
    let mut h = relay();
    assert_eq!(
        h.load_links(&link_bytes(0, 0, 0, 0, 2, 0)),
        Err(EngineError::Links(LinkError::ToChunkOutOfRange(2)))
    );
    assert_eq!(
        h.load_links(&link_bytes(0, 1, 0, 0, 1, 0)),
        Err(EngineError::Links(LinkError::FromOutIndexOutOfRange { chunk: 0, index: 1 }))
    );
    assert_eq!(
        h.load_links(&link_bytes(0, 0, 5, 0, 1, 0)),
        Err(EngineError::Links(LinkError::InvalidTrigger(5)))
    );
    assert_eq!(h.load_links(&[0u8; 23].to_vec()), Err(EngineError::Links(LinkError::UnexpectedEof)));
    assert_eq!(h.links.len(), 2);
    assert_eq!(h.load_links(&Vec::new()), Ok(()));
    assert_eq!(h.links.len(), 0);
}

#[test]
fn chunks_bring_their_initial_bits() {
    let mut a = follower();
    a.input_bits[0] = 1;
    let mut b = chunk(3, 2, 0, vec![]);
    b.input_bits[0] = 0b101;
    b.output_bits[0] = 0b10;
    let mut h = MycosHandle::new();
    h.load_chunks(&vec![encode_chunk(&a), encode_chunk(&b)]).unwrap();
    assert_eq!(h.inputs, vec![0b1011]);
    assert_eq!(h.outputs, vec![0b100]);
    assert_eq!(h.get_outputs(1).unwrap(), vec![0b10]);
    assert_eq!(h.bases[1].input, 1);
    assert_eq!(h.bases[1].output, 1);
    assert_eq!(h.bases[1].internal, 1);
}

#[test]
fn empty_engine_ticks_to_nothing() {
    let mut h = MycosHandle::new();
    assert_eq!(h.tick(None), Metrics { rounds: 0, effects: 0 });
    assert_eq!(h.get_outputs(0), None);
    assert!(!h.set_inputs(0, &vec![]));
}

#[test]
fn bit_windows_cross_word_boundaries() {
    let words = vec![0x8000_0001u32, 0x0000_0003];
    assert_eq!(extract_bits(&words, 31, 3), vec![0b111]);
    assert_eq!(extract_bits(&words, 0, 33), vec![0x8000_0001, 1]);
    assert_eq!(extract_bits(&words, 5, 0), Vec::<u32>::new());
    let mut target = vec![0xFFFF_FFFFu32, 0];
    implant_bits(&mut target, 30, 4, &vec![0b0101]);
    assert_eq!(target, vec![0x7FFF_FFFF, 0b01]);
}
