use mycos::genome::{Bits, ChunkGene, ConnGene, Genome, GenomeMeta, LinkGene, ValidationError};

fn zeros(n: usize) -> Bits {
    Bits::repeat(false, n)
}

#[test]
fn conn_gene_validation() {
    assert!(ConnGene::new(0, 1, 0, 0, 0, 0, 0).is_ok());
    assert!(matches!(
        ConnGene::new(0, 2, 0, 0, 0, 0, 0),
        Err(ValidationError::InvalidConnEdge { .. })
    ));
}

#[test]
fn chunk_gene_validation() {
    let conn = ConnGene::new(0, 1, 0, 0, 0, 0, 0).unwrap();
    let chunk = ChunkGene::new(1, 0, 1, zeros(1), Bits::new(), zeros(1), vec![conn]);
    assert!(chunk.validate().is_ok());

    let bad_conn = ConnGene::new(0, 1, 0, 0, 1, 0, 0).unwrap();
    let bad_chunk = ChunkGene::new(1, 0, 1, zeros(1), Bits::new(), zeros(1), vec![bad_conn]);
    assert!(matches!(bad_chunk.validate(), Err(ValidationError::FromIndexOutOfRange { .. })));
}

#[test]
fn genome_validate_and_sort() {
    let conn_a1 = ConnGene::new(1, 2, 0, 0, 0, 0, 1).unwrap();
    let conn_a0 = ConnGene::new(1, 2, 0, 0, 0, 0, 0).unwrap();
    let chunk_a =
        ChunkGene::new(0, 1, 1, Bits::new(), zeros(1), zeros(1), vec![conn_a1.clone(), conn_a0.clone()]);
    let chunk_b = ChunkGene::new(1, 0, 0, zeros(1), Bits::new(), Bits::new(), Vec::new());
    let link = LinkGene::new(0, 0, 0, 0, 1, 0, 1).unwrap();

    let genome =
        Genome::new(vec![chunk_a, chunk_b], vec![link], GenomeMeta::new(0, "tag".into())).unwrap();

    assert_eq!(genome.chunks[0].conns[0].order_tag, 0);
    assert_eq!(genome.chunks[0].conns[1].order_tag, 1);
    assert_eq!(genome.links[0].order_tag, 1);
    assert!(genome.validate().is_ok());
}

#[test]
fn bit_vectors_behave_like_vectors_of_bits() {
    let mut b = Bits::from_bools(&vec![true, false, true]);
    assert_eq!(b.len(), 3);
    assert_eq!(b.to_bools(), vec![true, false, true]);
    assert!(b.get(0) && !b.get(1) && b.get(2));
    b.set(1, true);
    assert_eq!(b.to_bools(), vec![true, true, true]);
    b.resize(5, false);
    assert_eq!(b.to_bools(), vec![true, true, true, false, false]);
    b.resize(2, true);
    assert_eq!(b.to_bools(), vec![true, true]);
    b.resize(4, true);
    b.set(0, false);
    assert_eq!(b.remove(0), false);
    assert_eq!(b.to_bools(), vec![true, true, true]);
    let c = b.clone();
    b.set(2, false);
    assert_eq!(c.to_bools(), vec![true, true, true]);
    assert_eq!(Bits::new().len(), 0);
    assert_eq!(Bits::repeat(true, 9).to_bools(), vec![true; 9]);
}

#[test]
fn connection_defects_in_order() {
    assert_eq!(ConnGene::new(9, 9, 3, 4, 0, 0, 0), Err(ValidationError::InvalidTrigger(3)));
    assert_eq!(ConnGene::new(9, 9, 2, 4, 0, 0, 0), Err(ValidationError::InvalidAction(4)));
    assert_eq!(
        ConnGene::new(2, 1, 2, 2, 0, 0, 0),
        Err(ValidationError::InvalidConnEdge { from_section: 2, to_section: 1 })
    );
    assert!(ConnGene::new(1, 1, 2, 2, 7, 8, 9).is_ok());
    assert!(ConnGene::new(1, 2, 0, 0, 0, 0, 0).is_ok());
    let c = ConnGene::new(1, 2, 0, 0, 3, 4, 0).unwrap();
    assert_eq!(c.validate_in(0, 5, 4), Ok(()));
    assert_eq!(
        c.validate_in(0, 5, 3),
        Err(ValidationError::FromIndexOutOfRange { section: 1, index: 3 })
    );
    assert_eq!(
        c.validate_in(0, 4, 4),
        Err(ValidationError::ToIndexOutOfRange { section: 2, index: 4 })
    );
}

#[test]
fn chunk_gene_length_mismatches() {
    let g = ChunkGene::new(2, 1, 1, zeros(1), zeros(2), zeros(3), vec![]);
    assert_eq!(g.validate(), Err(ValidationError::InputsLenMismatch { expected: 2, actual: 1 }));
    let g = ChunkGene::new(1, 1, 1, zeros(1), zeros(2), zeros(3), vec![]);
    assert_eq!(g.validate(), Err(ValidationError::OutputsLenMismatch { expected: 1, actual: 2 }));
    let g = ChunkGene::new(1, 2, 1, zeros(1), zeros(2), zeros(3), vec![]);
    assert_eq!(g.validate(), Err(ValidationError::InternalsLenMismatch { expected: 1, actual: 3 }));
}

#[test]
fn link_defects_in_order() {
    assert_eq!(LinkGene::new(0, 0, 3, 3, 0, 0, 0), Err(ValidationError::InvalidTrigger(3)));
    assert_eq!(LinkGene::new(0, 0, 0, 3, 0, 0, 0), Err(ValidationError::InvalidAction(3)));
    let chunk = || ChunkGene::new(1, 1, 0, zeros(1), zeros(1), Bits::new(), vec![]);
    let meta = || GenomeMeta::new(1, "x".into());
    let link = |fc, fo, tc, ti| LinkGene::new(fc, fo, 0, 0, tc, ti, 0).unwrap();
    let err = |l| Genome::new(vec![chunk(), chunk()], vec![l], meta()).err();
    assert_eq!(err(link(2, 0, 3, 0)), Some(ValidationError::InvalidLinkFromChunk(2)));
    assert_eq!(err(link(1, 5, 3, 5)), Some(ValidationError::InvalidLinkToChunk(3)));
    assert_eq!(
        err(link(1, 1, 0, 5)),
        Some(ValidationError::InvalidLinkFromIndex { chunk: 1, index: 1 })
    );
    assert_eq!(
        err(link(1, 0, 0, 1)),
        Some(ValidationError::InvalidLinkToIndex { chunk: 0, index: 1 })
    );
    assert_eq!(err(link(1, 0, 0, 0)), None);
}

#[test]
fn sorting_is_by_source_then_tag_and_stable() {
    let conns = vec![
        ConnGene::new(1, 2, 0, 0, 1, 0, 5).unwrap(),
        ConnGene::new(1, 1, 1, 0, 0, 1, 7).unwrap(),
        ConnGene::new(0, 1, 0, 0, 0, 0, 9).unwrap(),
        ConnGene::new(1, 1, 2, 0, 0, 0, 7).unwrap(),
        ConnGene::new(1, 2, 0, 0, 0, 0, 1).unwrap(),
    ];
    let mut g = ChunkGene::new(1, 1, 2, zeros(1), zeros(1), zeros(2), conns);
    g.sort();
    let order: Vec<(u8, u32, u32, u8)> =
        g.conns.iter().map(|c| (c.from_section, c.from_index, c.order_tag, c.trigger)).collect();
    assert_eq!(order, vec![(0, 0, 9, 0), (1, 0, 1, 0), (1, 0, 7, 1), (1, 0, 7, 2), (1, 1, 5, 0)]);
    let copy = g.duplicate();
    assert_eq!(copy.conns, g.conns);
    assert_eq!(copy.inputs_init.to_bools(), g.inputs_init.to_bools());
}
