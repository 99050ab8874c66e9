//! Mutation operators on genomes.
//!
//! Every operator comes in two forms. The form that ends in `_at` takes
//! the numbers that steer it as arguments, and says exactly what it
//! does. The other form draws those numbers from a source of random
//! numbers and hands them on.

use vstd::prelude::*;
use crate::genome::{Bits, ChunkGeneView, ConnGene, Genome, GenomeView, LinkGene};
use crate::order::{
    canonical_or, canonicalize, copy_items, find_highest_tag, highest_tag, sort_items, Tagged,
};

verus! {

/// A source of random numbers. Nothing is promised of what it yields.
pub trait DrawSource {
    /// The next 32 bits.
    fn next_u32(&mut self) -> (r: u32);

    /// The next 64 bits.
    fn next_u64(&mut self) -> (r: u64);
}

/// `g` with the connections of chunk `c` replaced.
pub open spec fn with_conns(g: GenomeView, c: int, conns: Seq<ConnGene>) -> GenomeView {
    GenomeView { chunks: g.chunks.update(c, ChunkGeneView { conns, ..g.chunks[c] }), ..g }
}

/// `g` with the internal bits of chunk `c` replaced.
pub open spec fn with_internals(g: GenomeView, c: int, nn: u32, bits: Seq<bool>) -> GenomeView {
    GenomeView {
        chunks: g.chunks.update(c, ChunkGeneView { nn, internals_init: bits, ..g.chunks[c] }),
        ..g
    }
}

/// The chunks among the first `k` that have connections, in order.
pub open spec fn wired_chunks(g: GenomeView, k: int) -> Seq<int>
    decreases k,
{
    if k <= 0 {
        Seq::empty()
    } else {
        let front = wired_chunks(g, k - 1);
        if g.chunks[k - 1].conns.len() > 0 {
            front.push(k - 1)
        } else {
            front
        }
    }
}

/// The chunks among the first `k` that have internal bits, in order.
pub open spec fn stateful_chunks(g: GenomeView, k: int) -> Seq<int>
    decreases k,
{
    if k <= 0 {
        Seq::empty()
    } else {
        let front = stateful_chunks(g, k - 1);
        if g.chunks[k - 1].nn > 0 {
            front.push(k - 1)
        } else {
            front
        }
    }
}

/// Lists the chunks that have connections.
fn list_wired(genome: &Genome) -> (v: Vec<usize>)
    ensures
        v@.len() == wired_chunks(genome@, genome.chunks@.len() as int).len(),
        forall|i: int|
            0 <= i < v@.len() ==> (#[trigger] v@[i]) == wired_chunks(
                genome@,
                genome.chunks@.len() as int,
            )[i] && v@[i] < genome.chunks@.len() && genome.chunks@[v@[i] as int].conns@.len() > 0,
{
    let n: usize = genome.chunks.len();
    let mut v: Vec<usize> = Vec::new();
    let mut k: usize = 0;
    while k < n
        invariant
            k <= n,
            n == genome.chunks@.len(),
            v@.len() == wired_chunks(genome@, k as int).len(),
            forall|i: int|
                0 <= i < v@.len() ==> (#[trigger] v@[i]) == wired_chunks(genome@, k as int)[i]
                    && v@[i] < n && genome.chunks@[v@[i] as int].conns@.len() > 0,
        decreases n - k,
    {
        if genome.chunks[k].conns.len() > 0 {
            v.push(k);
        }
        k = k + 1;
    }
    v
}

/// Lists the chunks that have internal bits.
fn list_stateful(genome: &Genome) -> (v: Vec<usize>)
    ensures
        v@.len() == stateful_chunks(genome@, genome.chunks@.len() as int).len(),
        forall|i: int|
            0 <= i < v@.len() ==> (#[trigger] v@[i]) == stateful_chunks(
                genome@,
                genome.chunks@.len() as int,
            )[i] && v@[i] < genome.chunks@.len() && genome.chunks@[v@[i] as int].nn > 0,
{
    let n: usize = genome.chunks.len();
    let mut v: Vec<usize> = Vec::new();
    let mut k: usize = 0;
    while k < n
        invariant
            k <= n,
            n == genome.chunks@.len(),
            v@.len() == stateful_chunks(genome@, k as int).len(),
            forall|i: int|
                0 <= i < v@.len() ==> (#[trigger] v@[i]) == stateful_chunks(genome@, k as int)[i]
                    && v@[i] < n && genome.chunks@[v@[i] as int].nn > 0,
        decreases n - k,
    {
        if genome.chunks[k].nn > 0 {
            v.push(k);
        }
        k = k + 1;
    }
    v
}

/// Replaces the connections of chunk `c`.
fn put_conns(genome: &mut Genome, c: usize, conns: Vec<ConnGene>)
    requires
        c < old(genome).chunks@.len(),
    ensures
        final(genome)@ == with_conns(old(genome)@, c as int, conns@),
        final(genome).chunks@.len() == old(genome).chunks@.len(),
{
    genome.chunks[c].conns = conns;
    assert(genome@.chunks =~= with_conns(old(genome)@, c as int, conns@).chunks);
}

/// Replaces the internal bits of chunk `c`.
fn put_internals(genome: &mut Genome, c: usize, nn: u32, bits: Bits)
    requires
        c < old(genome).chunks@.len(),
    ensures
        final(genome)@ == with_internals(old(genome)@, c as int, nn, bits@),
        final(genome).chunks@.len() == old(genome).chunks@.len(),
{
    genome.chunks[c].nn = nn;
    genome.chunks[c].internals_init = bits;
    assert(genome@.chunks =~= with_internals(old(genome)@, c as int, nn, bits@).chunks);
}

/// The chunk that `pick` selects among `candidates`.
pub open spec fn picked(candidates: Seq<int>, pick: u32) -> int {
    candidates[pick as int % candidates.len() as int]
}

/// Connection `k` of chunk `c` replaced by `conn`.
pub open spec fn with_conn(g: GenomeView, c: int, k: int, conn: ConnGene) -> GenomeView {
    with_conns(g, c, g.chunks[c].conns.update(k, conn))
}

/// The byte after `b` in the cycle 0, 1, 2.
pub open spec fn next_of_three(b: u8) -> u8 {
    ((b + 1) % 3) as u8
}

/// What [`flip_trigger_at`] makes of a genome: in the chunk picked
/// among those with connections, the connection picked takes the next
/// trigger. Without such a chunk nothing changes.
pub open spec fn flipped_trigger(g: GenomeView, chunk_pick: u32, conn_pick: u32) -> GenomeView {
    let candidates = wired_chunks(g, g.chunks.len() as int);
    if candidates.len() == 0 {
        g
    } else {
        let c = picked(candidates, chunk_pick);
        let k = conn_pick as int % g.chunks[c].conns.len() as int;
        let conn = g.chunks[c].conns[k];
        with_conn(g, c, k, ConnGene { trigger: next_of_three(conn.trigger), ..conn })
    }
}

/// What [`flip_action_at`] makes of a genome: as
/// [`flipped_trigger`], for the action.
pub open spec fn flipped_action(g: GenomeView, chunk_pick: u32, conn_pick: u32) -> GenomeView {
    let candidates = wired_chunks(g, g.chunks.len() as int);
    if candidates.len() == 0 {
        g
    } else {
        let c = picked(candidates, chunk_pick);
        let k = conn_pick as int % g.chunks[c].conns.len() as int;
        let conn = g.chunks[c].conns[k];
        with_conn(g, c, k, ConnGene { action: next_of_three(conn.action), ..conn })
    }
}

/// Moves one connection to the next trigger.
pub fn flip_trigger_at(genome: &mut Genome, chunk_pick: u32, conn_pick: u32)
    ensures
        final(genome)@ == flipped_trigger(old(genome)@, chunk_pick, conn_pick),
{
    let candidates = list_wired(genome);
    if candidates.len() == 0 {
        return ;
    }
    let c: usize = candidates[chunk_pick as usize % candidates.len()];
    let k: usize = conn_pick as usize % genome.chunks[c].conns.len();
    let conn: ConnGene = genome.chunks[c].conns[k];
    let mut conns = copy_items(&genome.chunks[c].conns);
    conns.set(k, ConnGene { trigger: ((conn.trigger as u32 + 1) % 3) as u8, ..conn });
    put_conns(genome, c, conns);
}

/// Moves one connection to the next action.
pub fn flip_action_at(genome: &mut Genome, chunk_pick: u32, conn_pick: u32)
    ensures
        final(genome)@ == flipped_action(old(genome)@, chunk_pick, conn_pick),
{
    let candidates = list_wired(genome);
    if candidates.len() == 0 {
        return ;
    }
    let c: usize = candidates[chunk_pick as usize % candidates.len()];
    let k: usize = conn_pick as usize % genome.chunks[c].conns.len();
    let conn: ConnGene = genome.chunks[c].conns[k];
    let mut conns = copy_items(&genome.chunks[c].conns);
    conns.set(k, ConnGene { action: ((conn.action as u32 + 1) % 3) as u8, ..conn });
    put_conns(genome, c, conns);
}

/// Draws for [`flip_trigger_at`].
pub fn flip_trigger<R: DrawSource>(genome: &mut Genome, rng: &mut R)
    ensures
        exists|a: u32, b: u32| final(genome)@ == #[trigger] flipped_trigger(old(genome)@, a, b),
{
    if list_wired(genome).len() == 0 {
        assert(genome@ == flipped_trigger(genome@, 0, 0));
        return ;
    }
    let a: u32 = rng.next_u32();
    let b: u32 = rng.next_u32();
    flip_trigger_at(genome, a, b);
}

/// Draws for [`flip_action_at`].
pub fn flip_action<R: DrawSource>(genome: &mut Genome, rng: &mut R)
    ensures
        exists|a: u32, b: u32| final(genome)@ == #[trigger] flipped_action(old(genome)@, a, b),
{
    if list_wired(genome).len() == 0 {
        assert(genome@ == flipped_action(genome@, 0, 0));
        return ;
    }
    let a: u32 = rng.next_u32();
    let b: u32 = rng.next_u32();
    flip_action_at(genome, a, b);
}


/// What [`remove_connection_at`] makes of a genome: in the chunk
/// picked among those with connections, the connection picked is taken
/// out and the rest brought into canonical order with strictly
/// increasing tags. Without such a chunk, or if a tag would run over,
/// nothing changes.
pub open spec fn removed_connection(g: GenomeView, chunk_pick: u32, conn_pick: u32) -> GenomeView {
    let candidates = wired_chunks(g, g.chunks.len() as int);
    if candidates.len() == 0 {
        g
    } else {
        let c = picked(candidates, chunk_pick);
        let conns = g.chunks[c].conns;
        let k = conn_pick as int % conns.len() as int;
        with_conns(g, c, canonical_or(conns, conns.remove(k)))
    }
}

/// Takes one connection out.
pub fn remove_connection_at(genome: &mut Genome, chunk_pick: u32, conn_pick: u32)
    ensures
        final(genome)@ == removed_connection(old(genome)@, chunk_pick, conn_pick),
{
    let candidates = list_wired(genome);
    if candidates.len() == 0 {
        return ;
    }
    let c: usize = candidates[chunk_pick as usize % candidates.len()];
    let k: usize = conn_pick as usize % genome.chunks[c].conns.len();
    let mut conns = copy_items(&genome.chunks[c].conns);
    conns.remove(k);
    if canonicalize(&mut conns) {
        put_conns(genome, c, conns);
    } else {
        assert(genome@.chunks =~= with_conns(
            genome@,
            c as int,
            genome@.chunks[c as int].conns,
        ).chunks);
    }
}

/// Draws for [`remove_connection_at`].
pub fn remove_connection<R: DrawSource>(genome: &mut Genome, rng: &mut R)
    ensures
        exists|a: u32, b: u32| final(genome)@ == #[trigger] removed_connection(old(genome)@, a, b),
{
    if list_wired(genome).len() == 0 {
        assert(genome@ == removed_connection(genome@, 0, 0));
        return ;
    }
    let a: u32 = rng.next_u32();
    let b: u32 = rng.next_u32();
    remove_connection_at(genome, a, b);
}

/// The number of bits that a connection can aim at in its chunk: the
/// internal bits for a target among the internals, the output bits for a
/// target among the outputs, none otherwise.
pub open spec fn target_range(chunk: ChunkGeneView, conn: ConnGene) -> u32 {
    if conn.to_section == 1 {
        chunk.nn
    } else if conn.to_section == 2 {
        chunk.no
    } else {
        0
    }
}

/// What [`rewire_target_at`] makes of a genome: in the chunk picked
/// among those with connections, the connection picked aims at the bit
/// that `index_pick` selects in its target section. Without such a
/// chunk, or with an empty target section, nothing changes.
pub open spec fn rewired_target(
    g: GenomeView,
    chunk_pick: u32,
    conn_pick: u32,
    index_pick: u32,
) -> GenomeView {
    let candidates = wired_chunks(g, g.chunks.len() as int);
    if candidates.len() == 0 {
        g
    } else {
        let c = picked(candidates, chunk_pick);
        let k = conn_pick as int % g.chunks[c].conns.len() as int;
        let conn = g.chunks[c].conns[k];
        let range = target_range(g.chunks[c], conn);
        if range == 0 {
            g
        } else {
            with_conn(g, c, k, ConnGene { to_index: (index_pick % range) as u32, ..conn })
        }
    }
}

/// The target section that a rewiring would pick from, and the index
/// that the connection has now.
fn rewiring_range(genome: &Genome, chunk_pick: u32, conn_pick: u32) -> (r: (u32, u32))
    requires
        wired_chunks(genome@, genome.chunks@.len() as int).len() > 0,
    ensures
        ({
            let g = genome@;
            let c = picked(wired_chunks(g, g.chunks.len() as int), chunk_pick);
            let k = conn_pick as int % g.chunks[c].conns.len() as int;
            r.0 == target_range(g.chunks[c], g.chunks[c].conns[k]) && r.1
                == g.chunks[c].conns[k].to_index
        }),
{
    let candidates = list_wired(genome);
    let c: usize = candidates[chunk_pick as usize % candidates.len()];
    let k: usize = conn_pick as usize % genome.chunks[c].conns.len();
    let conn: ConnGene = genome.chunks[c].conns[k];
    let range: u32 = if conn.to_section == 1 {
        genome.chunks[c].nn
    } else if conn.to_section == 2 {
        genome.chunks[c].no
    } else {
        0
    };
    (range, conn.to_index)
}

/// Aims one connection at another bit of its target section.
pub fn rewire_target_at(genome: &mut Genome, chunk_pick: u32, conn_pick: u32, index_pick: u32)
    ensures
        final(genome)@ == rewired_target(old(genome)@, chunk_pick, conn_pick, index_pick),
{
    let candidates = list_wired(genome);
    if candidates.len() == 0 {
        return ;
    }
    let c: usize = candidates[chunk_pick as usize % candidates.len()];
    let k: usize = conn_pick as usize % genome.chunks[c].conns.len();
    let conn: ConnGene = genome.chunks[c].conns[k];
    let range: u32 = if conn.to_section == 1 {
        genome.chunks[c].nn
    } else if conn.to_section == 2 {
        genome.chunks[c].no
    } else {
        0
    };
    if range == 0 {
        return ;
    }
    let mut conns = copy_items(&genome.chunks[c].conns);
    conns.set(k, ConnGene { to_index: index_pick % range, ..conn });
    put_conns(genome, c, conns);
}

/// Draws for [`rewire_target_at`]. Where the target section has more
/// than one bit, an index that would leave the connection as it is is
/// drawn again, up to five times.
pub fn rewire_target<R: DrawSource>(genome: &mut Genome, rng: &mut R)
    ensures
        exists|a: u32, b: u32, c: u32|
            final(genome)@ == #[trigger] rewired_target(old(genome)@, a, b, c),
{
    if list_wired(genome).len() == 0 {
        assert(genome@ == rewired_target(genome@, 0, 0, 0));
        return ;
    }
    let a: u32 = rng.next_u32();
    let b: u32 = rng.next_u32();
    let (range, current) = rewiring_range(genome, a, b);
    if range == 0 {
        assert(genome@ == rewired_target(genome@, a, b, 0));
        return ;
    }
    let mut pick: u32 = rng.next_u32();
    if range > 1 {
        let mut tries: u32 = 0;
        while tries < 5 && pick % range == current
            invariant
                tries <= 5,
                range > 1,
            decreases 5 - tries,
        {
            pick = rng.next_u32();
            tries = tries + 1;
        }
    }
    rewire_target_at(genome, a, b, pick);
}

/// What [`bump_order_tag_at`] makes of a genome: in the chunk picked
/// among those with connections, the tag of the connection picked grows
/// by one to five, and the connections are brought into canonical order
/// with strictly increasing tags. Without such a chunk, or if a tag
/// would run over, nothing changes.
pub open spec fn bumped_order_tag(
    g: GenomeView,
    chunk_pick: u32,
    conn_pick: u32,
    bump_pick: u32,
) -> GenomeView {
    let candidates = wired_chunks(g, g.chunks.len() as int);
    if candidates.len() == 0 {
        g
    } else {
        let c = picked(candidates, chunk_pick);
        let conns = g.chunks[c].conns;
        let k = conn_pick as int % conns.len() as int;
        let tag = conns[k].order_tag + bump_pick % 5 + 1;
        if tag > u32::MAX {
            g
        } else {
            with_conns(
                g,
                c,
                canonical_or(conns, conns.update(k, ConnGene { order_tag: tag as u32, ..conns[k] })),
            )
        }
    }
}

/// Raises the order tag of one connection.
pub fn bump_order_tag_at(genome: &mut Genome, chunk_pick: u32, conn_pick: u32, bump_pick: u32)
    ensures
        final(genome)@ == bumped_order_tag(old(genome)@, chunk_pick, conn_pick, bump_pick),
{
    let candidates = list_wired(genome);
    if candidates.len() == 0 {
        return ;
    }
    let c: usize = candidates[chunk_pick as usize % candidates.len()];
    let k: usize = conn_pick as usize % genome.chunks[c].conns.len();
    let conn: ConnGene = genome.chunks[c].conns[k];
    let bump: u32 = bump_pick % 5 + 1;
    if conn.order_tag > u32::MAX - bump {
        return ;
    }
    let mut conns = copy_items(&genome.chunks[c].conns);
    conns.set(k, ConnGene { order_tag: conn.order_tag + bump, ..conn });
    if canonicalize(&mut conns) {
        put_conns(genome, c, conns);
    } else {
        assert(genome@.chunks =~= with_conns(
            genome@,
            c as int,
            genome@.chunks[c as int].conns,
        ).chunks);
    }
}

/// Draws for [`bump_order_tag_at`].
pub fn bump_order_tag<R: DrawSource>(genome: &mut Genome, rng: &mut R)
    ensures
        exists|a: u32, b: u32, c: u32|
            final(genome)@ == #[trigger] bumped_order_tag(old(genome)@, a, b, c),
{
    if list_wired(genome).len() == 0 {
        assert(genome@ == bumped_order_tag(genome@, 0, 0, 0));
        return ;
    }
    let a: u32 = rng.next_u32();
    let b: u32 = rng.next_u32();
    let c: u32 = rng.next_u32();
    bump_order_tag_at(genome, a, b, c);
}

/// `n`, or one if `n` is zero.
pub open spec fn at_least_one(n: u32) -> u32 {
    if n == 0 {
        1
    } else {
        n
    }
}

/// The connection that [`add_connection_at`] would add to `chunk`,
/// before its tag is settled: the edge is Input→Internal,
/// Internal→Internal or Internal→Output as `edge_pick` selects, and
/// the indices, the trigger and the action are what the other picks
/// select in their ranges.
pub open spec fn drafted_connection(
    chunk: ChunkGeneView,
    edge_pick: u32,
    from_pick: u32,
    to_pick: u32,
    trigger_pick: u32,
    action_pick: u32,
) -> ConnGene {
    let edge = edge_pick % 3;
    let from_section: u8 = if edge == 0 { 0 } else { 1 };
    let to_section: u8 = if edge == 2 { 2 } else { 1 };
    ConnGene {
        from_section,
        to_section,
        trigger: (trigger_pick % 3) as u8,
        action: (action_pick % 3) as u8,
        from_index: if from_section == 0 {
            (from_pick % at_least_one(chunk.ni)) as u32
        } else {
            (from_pick % at_least_one(chunk.nn)) as u32
        },
        to_index: if to_section == 1 {
            (to_pick % at_least_one(chunk.nn)) as u32
        } else {
            (to_pick % at_least_one(chunk.no)) as u32
        },
        order_tag: 0,
    }
}

/// What [`add_connection_at`] makes of a genome: the chunk picked gets
/// the drafted connection, tagged one above the highest tag of its
/// source, or zero if the source has no connection yet; then the
/// connections are brought into canonical order with strictly increasing
/// tags. Without chunks, for a chunk with neither internal nor output
/// bits, or if a tag would run over, nothing changes.
pub open spec fn added_connection(
    g: GenomeView,
    chunk_pick: u32,
    edge_pick: u32,
    from_pick: u32,
    to_pick: u32,
    trigger_pick: u32,
    action_pick: u32,
) -> GenomeView {
    if g.chunks.len() == 0 {
        g
    } else {
        let c = chunk_pick as int % g.chunks.len() as int;
        let chunk = g.chunks[c];
        if chunk.nn == 0 && chunk.no == 0 {
            g
        } else {
            let draft = drafted_connection(
                chunk,
                edge_pick,
                from_pick,
                to_pick,
                trigger_pick,
                action_pick,
            );
            match highest_tag(chunk.conns, draft) {
                Some(t) => if t == u32::MAX {
                    g
                } else {
                    with_conns(
                        g,
                        c,
                        canonical_or(
                            chunk.conns,
                            chunk.conns.push(ConnGene { order_tag: (t + 1) as u32, ..draft }),
                        ),
                    )
                },
                None => with_conns(g, c, canonical_or(chunk.conns, chunk.conns.push(draft))),
            }
        }
    }
}

/// Adds one connection.
pub fn add_connection_at(
    genome: &mut Genome,
    chunk_pick: u32,
    edge_pick: u32,
    from_pick: u32,
    to_pick: u32,
    trigger_pick: u32,
    action_pick: u32,
)
    ensures
        final(genome)@ == added_connection(
            old(genome)@,
            chunk_pick,
            edge_pick,
            from_pick,
            to_pick,
            trigger_pick,
            action_pick,
        ),
{
    if genome.chunks.len() == 0 {
        return ;
    }
    let c: usize = chunk_pick as usize % genome.chunks.len();
    let ni: u32 = genome.chunks[c].ni;
    let no: u32 = genome.chunks[c].no;
    let nn: u32 = genome.chunks[c].nn;
    if nn == 0 && no == 0 {
        return ;
    }
    let edge: u32 = edge_pick % 3;
    let from_section: u8 = if edge == 0 { 0 } else { 1 };
    let to_section: u8 = if edge == 2 { 2 } else { 1 };
    let from_index: u32 = if from_section == 0 {
        from_pick % (if ni == 0 { 1 } else { ni })
    } else {
        from_pick % (if nn == 0 { 1 } else { nn })
    };
    let to_index: u32 = if to_section == 1 {
        to_pick % (if nn == 0 { 1 } else { nn })
    } else {
        to_pick % (if no == 0 { 1 } else { no })
    };
    let draft = ConnGene {
        from_section,
        to_section,
        trigger: (trigger_pick % 3) as u8,
        action: (action_pick % 3) as u8,
        from_index,
        to_index,
        order_tag: 0,
    };
    let order_tag: u32 = match find_highest_tag(&genome.chunks[c].conns, &draft) {
        Some(t) => {
            if t == u32::MAX {
                return ;
            }
            t + 1
        },
        None => 0,
    };
    let mut conns = copy_items(&genome.chunks[c].conns);
    conns.push(ConnGene { order_tag, ..draft });
    if canonicalize(&mut conns) {
        put_conns(genome, c, conns);
    } else {
        assert(genome@.chunks =~= with_conns(
            genome@,
            c as int,
            genome@.chunks[c as int].conns,
        ).chunks);
    }
}

/// Draws for [`add_connection_at`].
pub fn add_connection<R: DrawSource>(genome: &mut Genome, rng: &mut R)
    ensures
        exists|a: u32, b: u32, c: u32, d: u32, e: u32, f: u32|
            final(genome)@ == #[trigger] added_connection(old(genome)@, a, b, c, d, e, f),
{
    if genome.chunks.len() == 0 {
        assert(genome@ == added_connection(genome@, 0, 0, 0, 0, 0, 0));
        return ;
    }
    let a: u32 = rng.next_u32();
    let c: usize = a as usize % genome.chunks.len();
    if genome.chunks[c].nn == 0 && genome.chunks[c].no == 0 {
        assert(genome@ == added_connection(genome@, a, 0, 0, 0, 0, 0));
        return ;
    }
    let b: u32 = rng.next_u32();
    let d: u32 = rng.next_u32();
    let e: u32 = rng.next_u32();
    let f: u32 = rng.next_u32();
    let g: u32 = rng.next_u32();
    add_connection_at(genome, a, b, d, e, f, g);
}


/// What [`add_internal_bit_at`] makes of a genome: the chunk picked
/// gets one to eight more internal bits, all clear. Without chunks, or
/// if the chunk would have more internal bits than a `u32` counts or a
/// bit vector holds, nothing changes.
pub open spec fn added_internal_bits(g: GenomeView, chunk_pick: u32, add_pick: u32) -> GenomeView {
    if g.chunks.len() == 0 {
        g
    } else {
        let c = chunk_pick as int % g.chunks.len() as int;
        let chunk = g.chunks[c];
        let nn = chunk.nn + add_pick % 8 + 1;
        if nn > u32::MAX || nn > crate::genome::max_bits() {
            g
        } else {
            with_internals(
                g,
                c,
                nn as u32,
                if nn <= chunk.internals_init.len() {
                    chunk.internals_init.take(nn)
                } else {
                    chunk.internals_init + Seq::new(
                        (nn - chunk.internals_init.len()) as nat,
                        |i: int| false,
                    )
                },
            )
        }
    }
}

/// Adds internal bits to one chunk.
pub fn add_internal_bit_at(genome: &mut Genome, chunk_pick: u32, add_pick: u32)
    ensures
        final(genome)@ == added_internal_bits(old(genome)@, chunk_pick, add_pick),
{
    if genome.chunks.len() == 0 {
        return ;
    }
    let c: usize = chunk_pick as usize % genome.chunks.len();
    let add: u32 = add_pick % 8 + 1;
    let nn: u32 = genome.chunks[c].nn;
    if nn > u32::MAX - add || (nn + add) as usize > usize::MAX / 8 {
        return ;
    }
    let mut bits: Bits = genome.chunks[c].internals_init.clone();
    bits.resize((nn + add) as usize, false);
    put_internals(genome, c, nn + add, bits);
}

/// Draws for [`add_internal_bit_at`].
pub fn add_internal_bit<R: DrawSource>(genome: &mut Genome, rng: &mut R)
    ensures
        exists|a: u32, b: u32| final(genome)@ == #[trigger] added_internal_bits(old(genome)@, a, b),
{
    if genome.chunks.len() == 0 {
        assert(genome@ == added_internal_bits(genome@, 0, 0));
        return ;
    }
    let a: u32 = rng.next_u32();
    let b: u32 = rng.next_u32();
    add_internal_bit_at(genome, a, b);
}

/// Some connection leaves or aims at internal bit `i`.
pub open spec fn bit_in_use(conns: Seq<ConnGene>, i: int) -> bool {
    exists|k: int|
        0 <= k < conns.len() && (((#[trigger] conns[k]).from_section == 1 && conns[k].from_index
            == i) || (conns[k].to_section == 1 && conns[k].to_index == i))
}

/// The internal bits below `k` that no connection leaves or aims at,
/// in order.
pub open spec fn unused_bits(conns: Seq<ConnGene>, k: int) -> Seq<u32>
    decreases k,
{
    if k <= 0 {
        Seq::empty()
    } else {
        let front = unused_bits(conns, k - 1);
        if bit_in_use(conns, k - 1) {
            front
        } else {
            front.push((k - 1) as u32)
        }
    }
}

/// `conn` once internal bit `gone` is taken out: internal indices above
/// it move down by one.
pub open spec fn shifted(conn: ConnGene, gone: u32) -> ConnGene {
    ConnGene {
        from_index: if conn.from_section == 1 && conn.from_index > gone {
            (conn.from_index - 1) as u32
        } else {
            conn.from_index
        },
        to_index: if conn.to_section == 1 && conn.to_index > gone {
            (conn.to_index - 1) as u32
        } else {
            conn.to_index
        },
        ..conn
    }
}

/// The connections once internal bit `gone`, which none of them
/// touches, is taken out: each is shifted, and those whose source or
/// target index then is the largest `u32` are dropped.
pub open spec fn reindexed(conns: Seq<ConnGene>, gone: u32) -> Seq<ConnGene>
    decreases conns.len(),
{
    if conns.len() == 0 {
        Seq::empty()
    } else {
        let front = reindexed(conns.drop_last(), gone);
        let conn = shifted(conns.last(), gone);
        if conn.from_index == u32::MAX || conn.to_index == u32::MAX {
            front
        } else {
            front.push(conn)
        }
    }
}

/// What [`remove_internal_bit_at`] makes of a genome: in the chunk
/// picked among those with internal bits, the bit picked among those
/// that no connection touches is taken out, the connections are
/// reindexed and brought into canonical order with strictly increasing
/// tags. Without such a chunk or such a bit, if the bit has no initial
/// value, or if a tag would run over, nothing changes.
pub open spec fn removed_internal_bit(g: GenomeView, chunk_pick: u32, bit_pick: u32) -> GenomeView {
    let candidates = stateful_chunks(g, g.chunks.len() as int);
    if candidates.len() == 0 {
        g
    } else {
        let c = picked(candidates, chunk_pick);
        let chunk = g.chunks[c];
        let unused = unused_bits(chunk.conns, chunk.nn as int);
        if unused.len() == 0 {
            g
        } else {
            let gone = unused[bit_pick as int % unused.len() as int];
            let conns = sort_items(reindexed(chunk.conns, gone));
            if gone >= chunk.internals_init.len() || !crate::order::retag_fits(
                conns,
                conns.len() as int,
            ) {
                g
            } else {
                GenomeView {
                    chunks: g.chunks.update(
                        c,
                        ChunkGeneView {
                            nn: (chunk.nn - 1) as u32,
                            internals_init: chunk.internals_init.remove(gone as int),
                            conns: crate::order::retag(conns, conns.len() as int),
                            ..chunk
                        },
                    ),
                    ..g
                }
            }
        }
    }
}

/// Whether some connection leaves or aims at internal bit `i`.
fn touches_bit(conns: &Vec<ConnGene>, i: u32) -> (r: bool)
    ensures
        r == bit_in_use(conns@, i as int),
{
    let n: usize = conns.len();
    let mut k: usize = 0;
    while k < n
        invariant
            k <= n,
            n == conns@.len(),
            forall|j: int|
                0 <= j < k ==> !(((#[trigger] conns@[j]).from_section == 1 && conns@[j].from_index
                    == i) || (conns@[j].to_section == 1 && conns@[j].to_index == i)),
        decreases n - k,
    {
        let conn: ConnGene = conns[k];
        if (conn.from_section == 1 && conn.from_index == i) || (conn.to_section == 1
            && conn.to_index == i) {
            return true;
        }
        k = k + 1;
    }
    false
}

/// Lists the internal bits that no connection touches.
fn list_unused(conns: &Vec<ConnGene>, nn: u32) -> (v: Vec<u32>)
    ensures
        v@ == unused_bits(conns@, nn as int),
{
    let mut v: Vec<u32> = Vec::new();
    let mut i: u32 = 0;
    while i < nn
        invariant
            i <= nn,
            v@ == unused_bits(conns@, i as int),
        decreases nn - i,
    {
        if !touches_bit(conns, i) {
            v.push(i);
        }
        i = i + 1;
    }
    v
}

/// Computes [`reindexed`].
fn reindex(conns: &Vec<ConnGene>, gone: u32) -> (v: Vec<ConnGene>)
    ensures
        v@ == reindexed(conns@, gone),
{
    let n: usize = conns.len();
    let mut v: Vec<ConnGene> = Vec::new();
    let mut k: usize = 0;
    assert(conns@.take(0) =~= Seq::<ConnGene>::empty());
    while k < n
        invariant
            k <= n,
            n == conns@.len(),
            v@ == reindexed(conns@.take(k as int), gone),
        decreases n - k,
    {
        let conn: ConnGene = conns[k];
        proof {
            assert(conns@.take(k + 1).drop_last() =~= conns@.take(k as int));
        }
        let from_index: u32 = if conn.from_section == 1 && conn.from_index > gone {
            conn.from_index - 1
        } else {
            conn.from_index
        };
        let to_index: u32 = if conn.to_section == 1 && conn.to_index > gone {
            conn.to_index - 1
        } else {
            conn.to_index
        };
        if from_index != u32::MAX && to_index != u32::MAX {
            v.push(ConnGene { from_index, to_index, ..conn });
        }
        k = k + 1;
    }
    assert(conns@.take(n as int) =~= conns@);
    v
}

/// Takes one unused internal bit out of one chunk.
pub fn remove_internal_bit_at(genome: &mut Genome, chunk_pick: u32, bit_pick: u32)
    ensures
        final(genome)@ == removed_internal_bit(old(genome)@, chunk_pick, bit_pick),
{
    let candidates = list_stateful(genome);
    if candidates.len() == 0 {
        return ;
    }
    let c: usize = candidates[chunk_pick as usize % candidates.len()];
    let nn: u32 = genome.chunks[c].nn;
    let unused = list_unused(&genome.chunks[c].conns, nn);
    if unused.len() == 0 {
        return ;
    }
    let gone: u32 = unused[bit_pick as usize % unused.len()];
    if gone as usize >= genome.chunks[c].internals_init.len() {
        return ;
    }
    let mut conns = reindex(&genome.chunks[c].conns, gone);
    proof {
        crate::order::lemma_sort_items(conns@);
    }
    if !canonicalize(&mut conns) {
        return ;
    }
    let mut bits: Bits = genome.chunks[c].internals_init.clone();
    bits.remove(gone as usize);
    genome.chunks[c].nn = nn - 1;
    genome.chunks[c].internals_init = bits;
    genome.chunks[c].conns = conns;
    assert(genome@.chunks =~= removed_internal_bit(old(genome)@, chunk_pick, bit_pick).chunks);
}

/// Draws for [`remove_internal_bit_at`].
pub fn remove_internal_bit<R: DrawSource>(genome: &mut Genome, rng: &mut R)
    ensures
        exists|a: u32, b: u32| final(genome)@ == #[trigger] removed_internal_bit(old(genome)@, a, b),
{
    if list_stateful(genome).len() == 0 {
        assert(genome@ == removed_internal_bit(genome@, 0, 0));
        return ;
    }
    let a: u32 = rng.next_u32();
    let b: u32 = rng.next_u32();
    remove_internal_bit_at(genome, a, b);
}

/// What [`init_state_tweak_at`] makes of a genome: in the chunk picked
/// among those with internal bits, the initial value of the bit picked
/// is flipped. Without such a chunk, or if the bit has no initial value,
/// nothing changes.
pub open spec fn tweaked_init_state(g: GenomeView, chunk_pick: u32, bit_pick: u32) -> GenomeView {
    let candidates = stateful_chunks(g, g.chunks.len() as int);
    if candidates.len() == 0 {
        g
    } else {
        let c = picked(candidates, chunk_pick);
        let chunk = g.chunks[c];
        let bit = bit_pick as int % chunk.nn as int;
        if bit >= chunk.internals_init.len() {
            g
        } else {
            with_internals(
                g,
                c,
                chunk.nn,
                chunk.internals_init.update(bit, !chunk.internals_init[bit]),
            )
        }
    }
}

/// Flips the initial value of one internal bit.
pub fn init_state_tweak_at(genome: &mut Genome, chunk_pick: u32, bit_pick: u32)
    ensures
        final(genome)@ == tweaked_init_state(old(genome)@, chunk_pick, bit_pick),
{
    let candidates = list_stateful(genome);
    if candidates.len() == 0 {
        return ;
    }
    let c: usize = candidates[chunk_pick as usize % candidates.len()];
    let nn: u32 = genome.chunks[c].nn;
    let bit: usize = bit_pick as usize % nn as usize;
    if bit >= genome.chunks[c].internals_init.len() {
        return ;
    }
    let mut bits: Bits = genome.chunks[c].internals_init.clone();
    let current: bool = bits.get(bit);
    bits.set(bit, !current);
    put_internals(genome, c, nn, bits);
}

/// Draws for [`init_state_tweak_at`].
pub fn init_state_tweak<R: DrawSource>(genome: &mut Genome, rng: &mut R)
    ensures
        exists|a: u32, b: u32| final(genome)@ == #[trigger] tweaked_init_state(old(genome)@, a, b),
{
    if list_stateful(genome).len() == 0 {
        assert(genome@ == tweaked_init_state(genome@, 0, 0));
        return ;
    }
    let a: u32 = rng.next_u32();
    let b: u32 = rng.next_u32();
    init_state_tweak_at(genome, a, b);
}

/// What [`add_link_at`] makes of a genome: a link from the output
/// picked in the source chunk picked to the input picked in the target
/// chunk picked, with the trigger and action picked, tagged one above
/// the highest tag of its source, or zero if the source has no link yet;
/// then the links are brought into canonical order with strictly
/// increasing tags. Without chunks, if the source chunk has no outputs
/// or the target chunk no inputs, or if a tag would run over, nothing
/// changes.
pub open spec fn added_link(
    g: GenomeView,
    from_pick: u32,
    to_pick: u32,
    out_pick: u32,
    in_pick: u32,
    trigger_pick: u32,
    action_pick: u32,
) -> GenomeView {
    if g.chunks.len() == 0 {
        g
    } else {
        let fc = from_pick as int % g.chunks.len() as int;
        let tc = to_pick as int % g.chunks.len() as int;
        if g.chunks[fc].no == 0 || g.chunks[tc].ni == 0 {
            g
        } else {
            let draft = LinkGene {
                from_chunk: fc as u32,
                from_out_idx: (out_pick % g.chunks[fc].no) as u32,
                trigger: (trigger_pick % 3) as u8,
                action: (action_pick % 3) as u8,
                to_chunk: tc as u32,
                to_in_idx: (in_pick % g.chunks[tc].ni) as u32,
                order_tag: 0,
            };
            match highest_tag(g.links, draft) {
                Some(t) => if t == u32::MAX {
                    g
                } else {
                    GenomeView {
                        links: canonical_or(
                            g.links,
                            g.links.push(LinkGene { order_tag: (t + 1) as u32, ..draft }),
                        ),
                        ..g
                    }
                },
                None => GenomeView { links: canonical_or(g.links, g.links.push(draft)), ..g },
            }
        }
    }
}

/// Adds one link.
pub fn add_link_at(
    genome: &mut Genome,
    from_pick: u32,
    to_pick: u32,
    out_pick: u32,
    in_pick: u32,
    trigger_pick: u32,
    action_pick: u32,
)
    ensures
        final(genome)@ == added_link(
            old(genome)@,
            from_pick,
            to_pick,
            out_pick,
            in_pick,
            trigger_pick,
            action_pick,
        ),
{
    let n: usize = genome.chunks.len();
    if n == 0 {
        return ;
    }
    let fc: usize = from_pick as usize % n;
    let tc: usize = to_pick as usize % n;
    let no: u32 = genome.chunks[fc].no;
    let ni: u32 = genome.chunks[tc].ni;
    if no == 0 || ni == 0 {
        return ;
    }
    let draft = LinkGene {
        from_chunk: fc as u32,
        from_out_idx: out_pick % no,
        trigger: (trigger_pick % 3) as u8,
        action: (action_pick % 3) as u8,
        to_chunk: tc as u32,
        to_in_idx: in_pick % ni,
        order_tag: 0,
    };
    let order_tag: u32 = match find_highest_tag(&genome.links, &draft) {
        Some(t) => {
            if t == u32::MAX {
                return ;
            }
            t + 1
        },
        None => 0,
    };
    let mut links = copy_items(&genome.links);
    links.push(LinkGene { order_tag, ..draft });
    if canonicalize(&mut links) {
        genome.links = links;
    }
}

/// Draws for [`add_link_at`].
pub fn add_link<R: DrawSource>(genome: &mut Genome, rng: &mut R)
    ensures
        exists|a: u32, b: u32, c: u32, d: u32, e: u32, f: u32|
            final(genome)@ == #[trigger] added_link(old(genome)@, a, b, c, d, e, f),
{
    let n: usize = genome.chunks.len();
    if n == 0 {
        assert(genome@ == added_link(genome@, 0, 0, 0, 0, 0, 0));
        return ;
    }
    let a: u32 = rng.next_u32();
    let b: u32 = rng.next_u32();
    if genome.chunks[a as usize % n].no == 0 || genome.chunks[b as usize % n].ni == 0 {
        assert(genome@ == added_link(genome@, a, b, 0, 0, 0, 0));
        return ;
    }
    let c: u32 = rng.next_u32();
    let d: u32 = rng.next_u32();
    let e: u32 = rng.next_u32();
    let f: u32 = rng.next_u32();
    add_link_at(genome, a, b, c, d, e, f);
}

/// What [`remove_link_at`] makes of a genome: the link picked is taken
/// out and the rest brought into canonical order with strictly
/// increasing tags. Without links, or if a tag would run over, nothing
/// changes.
pub open spec fn removed_link(g: GenomeView, pick: u32) -> GenomeView {
    if g.links.len() == 0 {
        g
    } else {
        GenomeView {
            links: canonical_or(g.links, g.links.remove(pick as int % g.links.len() as int)),
            ..g
        }
    }
}

/// Takes one link out.
pub fn remove_link_at(genome: &mut Genome, pick: u32)
    ensures
        final(genome)@ == removed_link(old(genome)@, pick),
{
    let n: usize = genome.links.len();
    if n == 0 {
        return ;
    }
    let mut links = copy_items(&genome.links);
    links.remove(pick as usize % n);
    if canonicalize(&mut links) {
        genome.links = links;
    }
}

/// Draws for [`remove_link_at`].
pub fn remove_link<R: DrawSource>(genome: &mut Genome, rng: &mut R)
    ensures
        exists|a: u32| final(genome)@ == #[trigger] removed_link(old(genome)@, a),
{
    if genome.links.len() == 0 {
        assert(genome@ == removed_link(genome@, 0));
        return ;
    }
    let a: u32 = rng.next_u32();
    remove_link_at(genome, a);
}

/// Inserting a gated embed is optional; this operator draws nothing
/// and leaves the genome as it is.
pub fn gate_insert<R: DrawSource>(genome: &mut Genome, rng: &mut R)
    ensures
        *final(genome) == *old(genome),
{
}


/// The mutation operators.
#[derive(Debug, Clone, Copy, PartialEq, Eq, Structural)]
pub enum Operator {
    AddConnection,
    RemoveConnection,
    RewireTarget,
    FlipTrigger,
    FlipAction,
    BumpOrderTag,
    AddInternalBit,
    RemoveInternalBit,
    AddLink,
    RemoveLink,
    InitStateTweak,
    GateInsert,
}

/// The twelve operators in the order in which [`mutate`] tries them.
pub open spec fn operator_at(i: int) -> Operator {
    if i == 0 {
        Operator::AddConnection
    } else if i == 1 {
        Operator::RemoveConnection
    } else if i == 2 {
        Operator::RewireTarget
    } else if i == 3 {
        Operator::FlipTrigger
    } else if i == 4 {
        Operator::FlipAction
    } else if i == 5 {
        Operator::BumpOrderTag
    } else if i == 6 {
        Operator::AddInternalBit
    } else if i == 7 {
        Operator::RemoveInternalBit
    } else if i == 8 {
        Operator::AddLink
    } else if i == 9 {
        Operator::RemoveLink
    } else if i == 10 {
        Operator::InitStateTweak
    } else {
        Operator::GateInsert
    }
}

/// The chance of an operator per genome and generation, as the number
/// of 53-bit draws out of 2^53 that let it pass: 0.20 for adding a
/// connection, 0.15 for removing one and for rewiring, 0.05 for flipping
/// a trigger or an action, for bumping a tag, for adding a bit and for
/// tweaking the initial state, 0.03 for removing a bit, 0.10 for adding a
/// link, 0.07 for removing one, 0.02 for inserting a gated embed. Each
/// number is the chance as a double, times 2^53, rounded up.
pub open spec fn chance_of(op: Operator) -> u64 {
    match op {
        Operator::AddConnection => 1801439850948199,
        Operator::RemoveConnection => 1351079888211149,
        Operator::RewireTarget => 1351079888211149,
        Operator::FlipTrigger => 450359962737050,
        Operator::FlipAction => 450359962737050,
        Operator::BumpOrderTag => 450359962737050,
        Operator::AddInternalBit => 450359962737050,
        Operator::RemoveInternalBit => 270215977642230,
        Operator::AddLink => 900719925474100,
        Operator::RemoveLink => 630503947831870,
        Operator::InitStateTweak => 450359962737050,
        Operator::GateInsert => 180143985094820,
    }
}

/// Whether the 64-bit draw `draw` lets `op` pass: its upper 53 bits,
/// read as a number, are below the operator's chance. This is the test
/// `x < p` for the double `x` in `[0, 1)` that rand makes of 64 random
/// bits.
pub open spec fn passes(op: Operator, draw: u64) -> bool {
    draw / 2048 < chance_of(op)
}

/// Computes [`passes`].
pub fn draw_passes(op: Operator, draw: u64) -> (r: bool)
    ensures
        r == passes(op, draw),
{
    let limit: u64 = match op {
        Operator::AddConnection => 1801439850948199,
        Operator::RemoveConnection => 1351079888211149,
        Operator::RewireTarget => 1351079888211149,
        Operator::FlipTrigger => 450359962737050,
        Operator::FlipAction => 450359962737050,
        Operator::BumpOrderTag => 450359962737050,
        Operator::AddInternalBit => 450359962737050,
        Operator::RemoveInternalBit => 270215977642230,
        Operator::AddLink => 900719925474100,
        Operator::RemoveLink => 630503947831870,
        Operator::InitStateTweak => 450359962737050,
        Operator::GateInsert => 180143985094820,
    };
    draw / 2048 < limit
}

/// `after` is what one application of `op` can make of `before`, by
/// some draws.
pub open spec fn can_make(op: Operator, before: GenomeView, after: GenomeView) -> bool {
    match op {
        Operator::AddConnection => exists|a: u32, b: u32, c: u32, d: u32, e: u32, f: u32|
            after == #[trigger] added_connection(before, a, b, c, d, e, f),
        Operator::RemoveConnection => exists|a: u32, b: u32|
            after == #[trigger] removed_connection(before, a, b),
        Operator::RewireTarget => exists|a: u32, b: u32, c: u32|
            after == #[trigger] rewired_target(before, a, b, c),
        Operator::FlipTrigger => exists|a: u32, b: u32|
            after == #[trigger] flipped_trigger(before, a, b),
        Operator::FlipAction => exists|a: u32, b: u32|
            after == #[trigger] flipped_action(before, a, b),
        Operator::BumpOrderTag => exists|a: u32, b: u32, c: u32|
            after == #[trigger] bumped_order_tag(before, a, b, c),
        Operator::AddInternalBit => exists|a: u32, b: u32|
            after == #[trigger] added_internal_bits(before, a, b),
        Operator::RemoveInternalBit => exists|a: u32, b: u32|
            after == #[trigger] removed_internal_bit(before, a, b),
        Operator::AddLink => exists|a: u32, b: u32, c: u32, d: u32, e: u32, f: u32|
            after == #[trigger] added_link(before, a, b, c, d, e, f),
        Operator::RemoveLink => exists|a: u32| after == #[trigger] removed_link(before, a),
        Operator::InitStateTweak => exists|a: u32, b: u32|
            after == #[trigger] tweaked_init_state(before, a, b),
        Operator::GateInsert => after == before,
    }
}

/// Applies one operator once, as [`can_make`] says. No operator
/// touches the seed or the tag.
pub fn apply_operator<R: DrawSource>(genome: &mut Genome, rng: &mut R, op: Operator)
    ensures
        can_make(op, old(genome)@, final(genome)@),
        final(genome)@.seed == old(genome)@.seed,
        final(genome)@.tag == old(genome)@.tag,
{
    match op {
        Operator::AddConnection => add_connection(genome, rng),
        Operator::RemoveConnection => remove_connection(genome, rng),
        Operator::RewireTarget => rewire_target(genome, rng),
        Operator::FlipTrigger => flip_trigger(genome, rng),
        Operator::FlipAction => flip_action(genome, rng),
        Operator::BumpOrderTag => bump_order_tag(genome, rng),
        Operator::AddInternalBit => add_internal_bit(genome, rng),
        Operator::RemoveInternalBit => remove_internal_bit(genome, rng),
        Operator::AddLink => add_link(genome, rng),
        Operator::RemoveLink => remove_link(genome, rng),
        Operator::InitStateTweak => init_state_tweak(genome, rng),
        Operator::GateInsert => gate_insert(genome, rng),
    }
}

/// Applying `op` to `before` can give a genome that, sorted, has a
/// defect.
pub open spec fn can_fail(op: Operator, before: GenomeView) -> bool {
    exists|g: GenomeView| #[trigger] can_make(op, before, g) && g.sorted().defect() is Some
}

/// `after` is what [`apply_with_retry`] can make of `before`: what one
/// application of `op` made of it, sorted and without defect; or
/// `before` itself, after three applications that failed.
pub open spec fn retried(op: Operator, before: GenomeView, after: GenomeView) -> bool {
    (after == before && can_fail(op, before)) || exists|g: GenomeView|
        #[trigger] can_make(op, before, g) && g.sorted().defect() is None && after == g.sorted()
}

/// Applies one operator, sorts, and validates; an invalid outcome is
/// undone and the operator tried again, three times in all, as
/// [`retried`] says.
pub fn apply_with_retry<R: DrawSource>(genome: &mut Genome, rng: &mut R, op: Operator)
    ensures
        retried(op, old(genome)@, final(genome)@),
        final(genome)@ == old(genome)@ || final(genome)@.defect() is None,
        final(genome)@.seed == old(genome)@.seed,
        final(genome)@.tag == old(genome)@.tag,
{
    let original: Genome = genome.duplicate();
    let mut tries: u32 = 0;
    while tries < 3
        invariant
            tries <= 3,
            genome@ == old(genome)@,
            original@ == old(genome)@,
            tries > 0 ==> can_fail(op, old(genome)@),
        decreases 3 - tries,
    {
        apply_operator(genome, rng, op);
        let ghost made = genome@;
        genome.sort();
        match genome.validate() {
            Ok(()) => {
                assert(can_make(op, old(genome)@, made) && made.sorted().defect() is None);
                return ;
            },
            Err(_) => {
                assert(can_make(op, old(genome)@, made) && made.sorted().defect() is Some);
            },
        }
        *genome = original.duplicate();
        tries = tries + 1;
    }
}

/// `after` is what the `i`-th operator makes of `before` under the
/// 64-bit draw `draw`: if the draw lets the operator pass, what
/// [`apply_with_retry`] can make of it; else `before` itself.
pub open spec fn mutation_step(i: int, draw: u64, before: GenomeView, after: GenomeView) -> bool {
    if passes(operator_at(i), draw) {
        retried(operator_at(i), before, after)
    } else {
        after == before
    }
}

/// The genomes `path` lead from one to the next by the first operators
/// in turn, under the draws `draws`.
pub open spec fn mutated_through(path: Seq<GenomeView>, draws: Seq<u64>) -> bool {
    path.len() == draws.len() + 1 && forall|i: int|
        0 <= i < draws.len() ==> mutation_step(i, draws[i], #[trigger] path[i], path[i + 1])
}

/// Tries every operator in turn: a 64-bit draw decides, by the
/// operator's chance, whether it is applied with
/// [`apply_with_retry`]. The genome goes through twelve steps, as
/// [`mutated_through`] says; it ends as it was, or valid.
pub fn mutate<R: DrawSource>(genome: &mut Genome, rng: &mut R)
    ensures
        exists|path: Seq<GenomeView>, draws: Seq<u64>|
            #[trigger] mutated_through(path, draws) && draws.len() == 12 && path[0] == old(
                genome,
            )@ && path[12] == final(genome)@,
        final(genome)@ == old(genome)@ || final(genome)@.defect() is None,
        final(genome)@.seed == old(genome)@.seed,
        final(genome)@.tag == old(genome)@.tag,
{
    let ghost mut path: Seq<GenomeView> = seq![genome@];
    let ghost mut draws: Seq<u64> = Seq::empty();
    let mut i: u32 = 0;
    while i < 12
        invariant
            i <= 12,
            genome@ == old(genome)@ || genome@.defect() is None,
            genome@.seed == old(genome)@.seed,
            genome@.tag == old(genome)@.tag,
            draws.len() == i,
            mutated_through(path, draws),
            path[0] == old(genome)@,
            path[i as int] == genome@,
        decreases 12 - i,
    {
        let op: Operator = nth_operator(i);
        let draw: u64 = rng.next_u64();
        let ghost before = genome@;
        if draw_passes(op, draw) {
            apply_with_retry(genome, rng, op);
        }
        proof {
            let longer = path.push(genome@);
            let more = draws.push(draw);
            assert forall|k: int| 0 <= k < more.len() implies mutation_step(
                k,
                more[k],
                #[trigger] longer[k],
                longer[k + 1],
            ) by {
                if k < draws.len() {
                    assert(longer[k] == path[k] && longer[k + 1] == path[k + 1]);
                    assert(more[k] == draws[k]);
                    assert(mutation_step(k, draws[k], path[k], path[k + 1]));
                } else {
                    assert(longer[k] == before && longer[k + 1] == genome@);
                }
            }
            path = longer;
            draws = more;
        }
        i = i + 1;
    }
}

/// Computes [`operator_at`].
pub fn nth_operator(i: u32) -> (op: Operator)
    ensures
        op == operator_at(i as int),
{
    if i == 0 {
        Operator::AddConnection
    } else if i == 1 {
        Operator::RemoveConnection
    } else if i == 2 {
        Operator::RewireTarget
    } else if i == 3 {
        Operator::FlipTrigger
    } else if i == 4 {
        Operator::FlipAction
    } else if i == 5 {
        Operator::BumpOrderTag
    } else if i == 6 {
        Operator::AddInternalBit
    } else if i == 7 {
        Operator::RemoveInternalBit
    } else if i == 8 {
        Operator::AddLink
    } else if i == 9 {
        Operator::RemoveLink
    } else if i == 10 {
        Operator::InitStateTweak
    } else {
        Operator::GateInsert
    }
}

} // verus!
