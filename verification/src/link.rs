//! Links between chunks: the 24-byte link record, validation against a
//! population of chunks, per-chunk base offsets, and the grouped
//! adjacency of a link set.

use vstd::prelude::*;
use crate::bytes::{get_u32, le_u32};
use crate::chunk::{Action, MycosChunk, Trigger};
use crate::csr::{
    carried_by, effect_aligned, effects_sorted, group_wires, lemma_grouped_effects, Effect, Wire,
    CSR,
};
use crate::layout::{bit_to_word, word_index, word_mask};

verus! {

/// A wire from an output bit of one chunk to an input bit of another.
#[derive(Debug, Clone, Copy, PartialEq, Eq, Structural)]
pub struct Link {
    pub from_chunk: u32,
    pub from_out_idx: u32,
    pub trigger: Trigger,
    pub action: Action,
    pub to_chunk: u32,
    pub to_in_idx: u32,
    pub order_tag: u32,
}

/// Why a link set was rejected, at parse time or at validation.
#[derive(Debug, Clone, Copy, PartialEq, Eq, Structural)]
pub enum LinkError {
    UnexpectedEof,
    InvalidTrigger(u8),
    InvalidAction(u8),
    FromChunkOutOfRange(u32),
    ToChunkOutOfRange(u32),
    FromOutIndexOutOfRange { chunk: u32, index: u32 },
    ToInIndexOutOfRange { chunk: u32, index: u32 },
}

/// Bit offsets of one chunk's sections inside the population-wide
/// input, output and internal bit spaces.
#[derive(Debug, Clone, Copy, PartialEq, Eq, Structural)]
pub struct ChunkOffsets {
    pub input: u32,
    pub output: u32,
    pub internal: u32,
}

/// The link stored in the first 24 bytes of `r`: source chunk and
/// output, trigger, action, two reserved bytes, target chunk and input,
/// order tag. The trigger is checked before the action.
pub open spec fn decode_link(r: Seq<u8>) -> Result<Link, LinkError> {
    match Trigger::decode(r[8]) {
        Err(_) => Err(LinkError::InvalidTrigger(r[8])),
        Ok(trigger) => match Action::decode(r[9]) {
            Err(_) => Err(LinkError::InvalidAction(r[9])),
            Ok(action) => Ok(
                Link {
                    from_chunk: le_u32(r),
                    from_out_idx: le_u32(r.skip(4)),
                    trigger,
                    action,
                    to_chunk: le_u32(r.skip(12)),
                    to_in_idx: le_u32(r.skip(16)),
                    order_tag: le_u32(r.skip(20)),
                },
            ),
        },
    }
}

/// Puts the already decoded links `head` in front of what `tail` yields.
pub open spec fn after_links(head: Seq<Link>, tail: Result<Seq<Link>, LinkError>) -> Result<
    Seq<Link>,
    LinkError,
> {
    match tail {
        Err(e) => Err(e),
        Ok(rest) => Ok(head + rest),
    }
}

/// The `count` records at the front of `s`, read in order; the first
/// malformed one decides the error.
pub open spec fn decode_link_records(s: Seq<u8>, count: nat) -> Result<Seq<Link>, LinkError>
    decreases count,
{
    if count == 0 {
        Ok(Seq::empty())
    } else {
        match decode_link(s) {
            Err(e) => Err(e),
            Ok(l) => after_links(seq![l], decode_link_records(s.skip(24), (count - 1) as nat)),
        }
    }
}

/// What a link file decodes to. Its length must be a multiple of 24.
pub open spec fn decode_links(data: Seq<u8>) -> Result<Seq<Link>, LinkError> {
    if data.len() % 24 != 0 {
        Err(LinkError::UnexpectedEof)
    } else {
        decode_link_records(data, data.len() / 24)
    }
}

/// Reads the link record at `at`.
fn read_link(data: &[u8], at: usize) -> (r: Result<Link, LinkError>)
    requires
        at + 24 <= data@.len(),
    ensures
        r == decode_link(data@.skip(at as int)),
{
    let ghost rec = data@.skip(at as int);
    let total_len: usize = data.len();
    let from_chunk: u32 = get_u32(data, at);
    let from_out_idx: u32 = get_u32(data, at + 4);
    let trigger = match Trigger::try_from(data[at + 8]) {
        Ok(t) => t,
        Err(_) => { return Err(LinkError::InvalidTrigger(data[at + 8])); },
    };
    let action = match Action::try_from(data[at + 9]) {
        Ok(a) => a,
        Err(_) => { return Err(LinkError::InvalidAction(data[at + 9])); },
    };
    let to_chunk: u32 = get_u32(data, at + 12);
    let to_in_idx: u32 = get_u32(data, at + 16);
    let order_tag: u32 = get_u32(data, at + 20);
    proof {
        assert(rec.skip(4) =~= data@.skip(at + 4));
        assert(rec.skip(12) =~= data@.skip(at + 12));
        assert(rec.skip(16) =~= data@.skip(at + 16));
        assert(rec.skip(20) =~= data@.skip(at + 20));
    }
    Ok(Link { from_chunk, from_out_idx, trigger, action, to_chunk, to_in_idx, order_tag })
}

/// Decodes a link file. Succeeds exactly on the byte strings that
/// [`decode_links`] accepts, and reports its error otherwise.
pub fn parse_links(data: &[u8]) -> (r: Result<Vec<Link>, LinkError>)
    ensures
        match r {
            Ok(v) => decode_links(data@) == Ok::<Seq<Link>, LinkError>(v@),
            Err(e) => decode_links(data@) == Err::<Seq<Link>, LinkError>(e),
        },
{
    let total_len: usize = data.len();
    if total_len % 24 != 0 {
        return Err(LinkError::UnexpectedEof);
    }
    let count: usize = total_len / 24;
    let mut links: Vec<Link> = Vec::new();
    let mut i: usize = 0;
    assert(data@.skip(0) =~= data@);
    assert(Seq::<Link>::empty() + Seq::<Link>::empty() =~= Seq::<Link>::empty());
    while i < count
        invariant
            i <= count,
            total_len == data@.len(),
            total_len == 24 * count,
            links@.len() == i,
            decode_link_records(data@, count as nat) == after_links(
                links@,
                decode_link_records(data@.skip(24 * i), (count - i) as nat),
            ),
        decreases count - i,
    {
        let ghost here = data@.skip(24 * i);
        let link = match read_link(data, 24 * i) {
            Ok(l) => l,
            Err(e) => { return Err(e); },
        };
        proof {
            assert(here.skip(24) =~= data@.skip(24 * (i + 1)));
            let rest = decode_link_records(data@.skip(24 * (i + 1)), (count - i - 1) as nat);
            match rest {
                Ok(tail) => {
                    assert(links@ + (seq![link] + tail) =~= links@.push(link) + tail);
                },
                Err(e) => {},
            }
        }
        links.push(link);
        i = i + 1;
    }
    proof {
        assert(links@ + Seq::<Link>::empty() =~= links@);
    }
    Ok(links)
}

/// The first defect of `link` against the population `chunks`, or
/// `None` when it is valid: both chunks must exist, the source must be
/// an output of the source chunk and the target an input of the target
/// chunk.
pub open spec fn link_defect(link: Link, chunks: Seq<MycosChunk>) -> Option<LinkError> {
    if link.from_chunk >= chunks.len() {
        Some(LinkError::FromChunkOutOfRange(link.from_chunk))
    } else if link.to_chunk >= chunks.len() {
        Some(LinkError::ToChunkOutOfRange(link.to_chunk))
    } else if link.from_out_idx >= chunks[link.from_chunk as int].output_count {
        Some(LinkError::FromOutIndexOutOfRange { chunk: link.from_chunk, index: link.from_out_idx })
    } else if link.to_in_idx >= chunks[link.to_chunk as int].input_count {
        Some(LinkError::ToInIndexOutOfRange { chunk: link.to_chunk, index: link.to_in_idx })
    } else {
        None
    }
}

/// Every link is valid against `chunks`.
pub open spec fn links_valid(links: Seq<Link>, chunks: Seq<MycosChunk>) -> bool {
    forall|i: int| 0 <= i < links.len() ==> link_defect(#[trigger] links[i], chunks) is None
}

/// The defect of the first invalid link from `i` on, if there is one.
pub open spec fn link_defect_from(links: Seq<Link>, chunks: Seq<MycosChunk>, i: int) -> Option<
    LinkError,
>
    decreases links.len() - i,
{
    if i < 0 || i >= links.len() {
        None
    } else {
        match link_defect(links[i], chunks) {
            Some(e) => Some(e),
            None => link_defect_from(links, chunks, i + 1),
        }
    }
}

/// Checks every link against `chunks`, in order, and reports the
/// defect of the first invalid one.
pub fn validate_links(links: &[Link], chunks: &[MycosChunk]) -> (r: Result<(), LinkError>)
    ensures
        r is Ok <==> links_valid(links@, chunks@),
        r is Err ==> exists|i: int|
            0 <= i < links@.len() && link_defect(#[trigger] links@[i], chunks@) == Some(r->Err_0)
                && forall|j: int| 0 <= j < i ==> link_defect(#[trigger] links@[j], chunks@) is None,
        r == (match link_defect_from(links@, chunks@, 0) {
            Some(e) => Err::<(), LinkError>(e),
            None => Ok::<(), LinkError>(()),
        }),
{
    let n: usize = links.len();
    let count: usize = chunks.len();
    let mut i: usize = 0;
    while i < n
        invariant
            i <= n,
            n == links@.len(),
            count == chunks@.len(),
            forall|j: int| 0 <= j < i ==> link_defect(#[trigger] links@[j], chunks@) is None,
            link_defect_from(links@, chunks@, 0) == link_defect_from(links@, chunks@, i as int),
        decreases n - i,
    {
        let link: Link = links[i];
        if link.from_chunk as usize >= count {
            return Err(LinkError::FromChunkOutOfRange(link.from_chunk));
        }
        if link.to_chunk as usize >= count {
            return Err(LinkError::ToChunkOutOfRange(link.to_chunk));
        }
        if link.from_out_idx >= chunks[link.from_chunk as usize].output_count {
            return Err(
                LinkError::FromOutIndexOutOfRange {
                    chunk: link.from_chunk,
                    index: link.from_out_idx,
                },
            );
        }
        if link.to_in_idx >= chunks[link.to_chunk as usize].input_count {
            return Err(
                LinkError::ToInIndexOutOfRange { chunk: link.to_chunk, index: link.to_in_idx },
            );
        }
        i = i + 1;
    }
    Ok(())
}

/// Input bits of the first `k` chunks.
pub open spec fn inputs_before(chunks: Seq<MycosChunk>, k: int) -> int
    decreases k,
{
    if k <= 0 {
        0
    } else {
        inputs_before(chunks, k - 1) + chunks[k - 1].input_count
    }
}

/// Output bits of the first `k` chunks.
pub open spec fn outputs_before(chunks: Seq<MycosChunk>, k: int) -> int
    decreases k,
{
    if k <= 0 {
        0
    } else {
        outputs_before(chunks, k - 1) + chunks[k - 1].output_count
    }
}

/// Internal bits of the first `k` chunks.
pub open spec fn internals_before(chunks: Seq<MycosChunk>, k: int) -> int
    decreases k,
{
    if k <= 0 {
        0
    } else {
        internals_before(chunks, k - 1) + chunks[k - 1].internal_count
    }
}

/// The three population-wide bit spaces can be addressed with 32 bits.
pub open spec fn population_fits(chunks: Seq<MycosChunk>) -> bool {
    &&& inputs_before(chunks, chunks.len() as int) <= u32::MAX
    &&& outputs_before(chunks, chunks.len() as int) <= u32::MAX
    &&& internals_before(chunks, chunks.len() as int) <= u32::MAX
}

/// A chunk's sections end no later than the whole population's.
pub proof fn lemma_bases_bounded(chunks: Seq<MycosChunk>, k: int)
    requires
        0 <= k < chunks.len(),
    ensures
        0 <= inputs_before(chunks, k),
        0 <= outputs_before(chunks, k),
        0 <= internals_before(chunks, k),
        inputs_before(chunks, k) + chunks[k].input_count <= inputs_before(
            chunks,
            chunks.len() as int,
        ),
        outputs_before(chunks, k) + chunks[k].output_count <= outputs_before(
            chunks,
            chunks.len() as int,
        ),
        internals_before(chunks, k) + chunks[k].internal_count <= internals_before(
            chunks,
            chunks.len() as int,
        ),
{
    lemma_bases_grow(chunks, 0, k);
    lemma_bases_grow(chunks, k + 1, chunks.len() as int);
}

/// Base offsets never decrease along the population.
pub proof fn lemma_bases_grow(chunks: Seq<MycosChunk>, a: int, b: int)
    requires
        0 <= a <= b,
    ensures
        inputs_before(chunks, a) <= inputs_before(chunks, b),
        outputs_before(chunks, a) <= outputs_before(chunks, b),
        internals_before(chunks, a) <= internals_before(chunks, b),
        inputs_before(chunks, 0) == 0,
        outputs_before(chunks, 0) == 0,
        internals_before(chunks, 0) == 0,
    decreases b - a,
{
    if a < b {
        lemma_bases_grow(chunks, a, b - 1);
    }
}

/// The base offsets of every chunk: entry `i` counts the input, output
/// and internal bits of the chunks before chunk `i`.
pub fn compute_base_offsets(chunks: &[MycosChunk]) -> (offs: Vec<ChunkOffsets>)
    requires
        population_fits(chunks@),
    ensures
        offs@.len() == chunks@.len(),
        forall|i: int|
            0 <= i < chunks@.len() ==> (#[trigger] offs@[i]) == (ChunkOffsets {
                input: inputs_before(chunks@, i) as u32,
                output: outputs_before(chunks@, i) as u32,
                internal: internals_before(chunks@, i) as u32,
            }),
        forall|i: int|
            0 <= i < chunks@.len() ==> (#[trigger] offs@[i]).input == inputs_before(chunks@, i)
                && offs@[i].output == outputs_before(chunks@, i) && offs@[i].internal
                == internals_before(chunks@, i),
{
    let n: usize = chunks.len();
    let mut offs: Vec<ChunkOffsets> = Vec::new();
    let mut base_in: u32 = 0;
    let mut base_out: u32 = 0;
    let mut base_int: u32 = 0;
    let mut i: usize = 0;
    while i < n
        invariant
            i <= n,
            n == chunks@.len(),
            population_fits(chunks@),
            offs@.len() == i,
            base_in == inputs_before(chunks@, i as int),
            base_out == outputs_before(chunks@, i as int),
            base_int == internals_before(chunks@, i as int),
            forall|j: int|
                0 <= j < i ==> (#[trigger] offs@[j]).input == inputs_before(chunks@, j)
                    && offs@[j].output == outputs_before(chunks@, j) && offs@[j].internal
                    == internals_before(chunks@, j),
        decreases n - i,
    {
        proof {
            lemma_bases_bounded(chunks@, i as int);
        }
        offs.push(ChunkOffsets { input: base_in, output: base_out, internal: base_int });
        base_in = base_in + chunks[i].input_count;
        base_out = base_out + chunks[i].output_count;
        base_int = base_int + chunks[i].internal_count;
        i = i + 1;
    }
    offs
}

/// Link `l` as a wire: its source is the global id of its output bit,
/// its target the global id of its input bit.
pub open spec fn link_wire(l: Link, chunks: Seq<MycosChunk>) -> Wire {
    let to = (inputs_before(chunks, l.to_chunk as int) + l.to_in_idx) as u32;
    Wire {
        source: (outputs_before(chunks, l.from_chunk as int) + l.from_out_idx) as u32,
        trigger: l.trigger,
        effect: Effect {
            to_word: word_index(to),
            mask: word_mask(to),
            action: l.action,
            order_tag: l.order_tag,
            to_is_internal: false,
            to_bit: to,
        },
    }
}

/// The wires of a link set, in the order of the links.
pub open spec fn link_wires(links: Seq<Link>, chunks: Seq<MycosChunk>) -> Seq<Wire> {
    Seq::new(links.len(), |i: int| link_wire(links[i], chunks))
}

/// Builds the adjacency of a validated link set. Sources are all the
/// output bits of the population, targets all its input bits, both
/// addressed by base offset plus index.
pub fn build_link_csr(links: &[Link], chunks: &[MycosChunk]) -> (csr: CSR)
    requires
        links_valid(links@, chunks@),
        population_fits(chunks@),
        links@.len() <= u32::MAX,
        outputs_before(chunks@, chunks@.len() as int) < usize::MAX,
    ensures
        csr.groups(link_wires(links@, chunks@), outputs_before(chunks@, chunks@.len() as int)),
        csr.offs_tog@[outputs_before(chunks@, chunks@.len() as int)] == csr.effects@.len(),
        forall|t: Trigger, s: int|
            0 <= s < outputs_before(chunks@, chunks@.len() as int) ==> effects_sorted(
                #[trigger] csr.bucket(t, s),
            ),
        forall|k: int|
            0 <= k < csr.effects@.len() ==> effect_aligned(#[trigger] csr.effects@[k])
                && !csr.effects@[k].to_is_internal && csr.effects@[k].to_bit < inputs_before(
                chunks@,
                chunks@.len() as int,
            ),
{
    let offsets = compute_base_offsets(chunks);
    let count: usize = chunks.len();
    let n: usize = links.len();
    proof {
        lemma_bases_grow(chunks@, 0, count as int);
    }
    let out_total: usize = if count == 0 {
        0
    } else {
        proof {
            lemma_bases_bounded(chunks@, count - 1);
            assert(outputs_before(chunks@, count as int) == outputs_before(chunks@, count - 1)
                + chunks@[count - 1].output_count);
        }
        (offsets[count - 1].output + chunks[count - 1].output_count) as usize
    };
    let ghost all = link_wires(links@, chunks@);
    let mut wires: Vec<Wire> = Vec::new();
    let mut i: usize = 0;
    while i < n
        invariant
            i <= n,
            n == links@.len(),
            count == chunks@.len(),
            offsets@.len() == count,
            links_valid(links@, chunks@),
            population_fits(chunks@),
            out_total == outputs_before(chunks@, count as int),
            forall|j: int|
                0 <= j < count ==> (#[trigger] offsets@[j]).input == inputs_before(chunks@, j)
                    && offsets@[j].output == outputs_before(chunks@, j),
            all == link_wires(links@, chunks@),
            wires@.len() == i,
            forall|k: int| 0 <= k < i ==> wires@[k] == all[k],
            forall|k: int| 0 <= k < i ==> (#[trigger] wires@[k]).source < out_total,
        decreases n - i,
    {
        let link: Link = links[i];
        proof {
            assert(link_defect(links@[i as int], chunks@) is None);
            lemma_bases_bounded(chunks@, link.from_chunk as int);
            lemma_bases_bounded(chunks@, link.to_chunk as int);
        }
        let from: u32 = offsets[link.from_chunk as usize].output + link.from_out_idx;
        let to: u32 = offsets[link.to_chunk as usize].input + link.to_in_idx;
        let (to_word, mask) = bit_to_word(to);
        let effect = Effect {
            to_word,
            mask,
            action: link.action,
            order_tag: link.order_tag,
            to_is_internal: false,
            to_bit: to,
        };
        wires.push(Wire { source: from, trigger: link.trigger, effect });
        i = i + 1;
    }
    assert(wires@ =~= all);
    let csr = group_wires(&wires, out_total);
    proof {
        lemma_grouped_effects(&csr, all, out_total as int);
        assert forall|k: int| 0 <= k < csr.effects@.len() implies effect_aligned(
            #[trigger] csr.effects@[k],
        ) && !csr.effects@[k].to_is_internal && csr.effects@[k].to_bit < inputs_before(
            chunks@,
            chunks@.len() as int,
        ) by {
            assert(carried_by(all, csr.effects@[k]));
            let j = choose|j: int| 0 <= j < all.len() && (#[trigger] all[j]).effect == csr.effects@[k];
            assert(link_defect(links@[j], chunks@) is None);
            lemma_bases_bounded(chunks@, links@[j].to_chunk as int);
        }
    }
    csr
}

} // verus!
