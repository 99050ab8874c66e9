//! Embedding: a child chunk that runs inside a parent, switched by one
//! of the parent's internal bits (`gate_bit`).
//!
//! In alias mode the child is run afresh whenever `gate_bit` is set, on
//! inputs taken from the parent. In copy mode the child keeps its state:
//! inputs are taken over only when `gate_bit` rises, and the child runs
//! as long as `gate_bit` is set.

use vstd::prelude::*;
use crate::bytes::{get_u32, le_u32, lemma_skip_skip};
use crate::chunk::{ChunkView, MycosChunk, Section};
use crate::cpu_ref::{execute, settled};
use crate::layout::{
    bit_of_bytes, byte_bit_at, lemma_with_bit, packs_bytes, set_byte_bit, unpack_bytes, with_bit,
};

verus! {

/// How a child's inputs and outputs are tied to its parent.
#[derive(Debug, Clone, Copy, PartialEq, Eq, Structural)]
pub enum IoMode {
    Alias,
    Copy,
}

/// A child chunk embedded in a parent: which chunks, which switching bit,
/// which parent bits feed which child inputs (`map_in`: parent bit,
/// child input), which child outputs go to which parent outputs
/// (`map_out`: child output, parent bit), and `gate_bit` as last seen.
#[derive(Debug, Clone)]
pub struct Embed {
    pub parent_chunk: u32,
    pub child_chunk: u32,
    pub gate_bit: u32,
    pub io_mode: IoMode,
    pub map_in: Vec<(u32, u32)>,
    pub map_out: Vec<(u32, u32)>,
    pub gate_prev: bool,
}

/// Why an embed file was rejected.
#[derive(Debug, Clone, Copy, PartialEq, Eq, Structural)]
pub enum EmbedError {
    UnexpectedEof,
    InvalidIoMode(u8),
}

/// The mathematical content of an [`Embed`].
pub struct EmbedView {
    pub parent_chunk: u32,
    pub child_chunk: u32,
    pub gate_bit: u32,
    pub io_mode: IoMode,
    pub map_in: Seq<(u32, u32)>,
    pub map_out: Seq<(u32, u32)>,
    pub gate_prev: bool,
}

impl View for Embed {
    type V = EmbedView;

    open spec fn view(&self) -> EmbedView {
        EmbedView {
            parent_chunk: self.parent_chunk,
            child_chunk: self.child_chunk,
            gate_bit: self.gate_bit,
            io_mode: self.io_mode,
            map_in: self.map_in@,
            map_out: self.map_out@,
            gate_prev: self.gate_prev,
        }
    }
}

/// The views of a sequence of embeds.
pub open spec fn embed_views(v: Seq<Embed>) -> Seq<EmbedView> {
    Seq::new(v.len(), |i: int| v[i]@)
}

/// The `count` pairs of little-endian `u32`s at the front of `s`.
pub open spec fn decode_pairs(s: Seq<u8>, count: nat) -> Seq<(u32, u32)>
    decreases count,
{
    if count == 0 {
        Seq::empty()
    } else {
        seq![(le_u32(s), le_u32(s.skip(4)))] + decode_pairs(s.skip(8), (count - 1) as nat)
    }
}

/// Puts the already decoded embeds `head` in front of what `tail`
/// yields.
pub open spec fn after_embeds(
    head: Seq<EmbedView>,
    tail: Result<Seq<EmbedView>, EmbedError>,
) -> Result<Seq<EmbedView>, EmbedError> {
    match tail {
        Err(e) => Err(e),
        Ok(rest) => Ok(head + rest),
    }
}

/// The embed record at the front of `s`, and the number of bytes it
/// takes. A record is parent chunk, child chunk, gate bit, I/O mode (0
/// alias, 1 copy), three reserved bytes, the number of input pairs and
/// the pairs, the number of output pairs and the pairs. A freshly read
/// embed counts as last seen with `gate_bit` low.
pub open spec fn decode_embed(s: Seq<u8>) -> Result<(EmbedView, int), EmbedError> {
    if s.len() < 20 {
        Err(EmbedError::UnexpectedEof)
    } else if s[12] > 1 {
        Err(EmbedError::InvalidIoMode(s[12]))
    } else {
        let in_count = le_u32(s.skip(16)) as int;
        let out_at = 20 + 8 * in_count;
        if s.len() < out_at + 4 {
            Err(EmbedError::UnexpectedEof)
        } else {
            let out_count = le_u32(s.skip(out_at)) as int;
            let end = out_at + 4 + 8 * out_count;
            if s.len() < end {
                Err(EmbedError::UnexpectedEof)
            } else {
                Ok(
                    (
                        EmbedView {
                            parent_chunk: le_u32(s),
                            child_chunk: le_u32(s.skip(4)),
                            gate_bit: le_u32(s.skip(8)),
                            io_mode: if s[12] == 0 {
                                IoMode::Alias
                            } else {
                                IoMode::Copy
                            },
                            map_in: decode_pairs(s.skip(20), in_count as nat),
                            map_out: decode_pairs(s.skip(out_at + 4), out_count as nat),
                            gate_prev: false,
                        },
                        end,
                    ),
                )
            }
        }
    }
}

/// What an embed file decodes to: its records, one after the other to
/// the end of the file. The first record that is cut short or malformed
/// decides the error.
pub open spec fn decode_embeds(s: Seq<u8>) -> Result<Seq<EmbedView>, EmbedError>
    decreases s.len(),
{
    if s.len() == 0 {
        Ok(Seq::empty())
    } else {
        match decode_embed(s) {
            Err(e) => Err(e),
            Ok((embed, used)) => if 0 < used <= s.len() {
                after_embeds(seq![embed], decode_embeds(s.skip(used)))
            } else {
                Err(EmbedError::UnexpectedEof)
            },
        }
    }
}

/// Reads `count` pairs starting at byte `at`.
fn read_pairs(data: &[u8], at: usize, count: u32) -> (v: Vec<(u32, u32)>)
    requires
        at + 8 * count <= data@.len(),
    ensures
        v@ == decode_pairs(data@.skip(at as int), count as nat),
{
    let total_len: usize = data.len();
    let mut v: Vec<(u32, u32)> = Vec::new();
    let mut i: u32 = 0;
    let mut cursor: usize = at;
    proof {
        assert(Seq::<(u32, u32)>::empty() + decode_pairs(data@.skip(at as int), count as nat)
            =~= decode_pairs(data@.skip(at as int), count as nat));
    }
    while i < count
        invariant
            i <= count,
            total_len == data@.len(),
            cursor == at + 8 * i,
            at + 8 * count <= data@.len(),
            decode_pairs(data@.skip(at as int), count as nat) == v@ + decode_pairs(
                data@.skip(cursor as int),
                (count - i) as nat,
            ),
        decreases count - i,
    {
        let ghost here = data@.skip(cursor as int);
        let a: u32 = get_u32(data, cursor);
        let b: u32 = get_u32(data, cursor + 4);
        proof {
            assert(here.skip(4) =~= data@.skip(cursor + 4));
            assert(here.skip(8) =~= data@.skip(cursor + 8));
            let rest = decode_pairs(data@.skip(cursor + 8), (count - i - 1) as nat);
            assert(v@ + (seq![(a, b)] + rest) =~= v@.push((a, b)) + rest);
        }
        v.push((a, b));
        cursor = cursor + 8;
        i = i + 1;
    }
    proof {
        assert(v@ + Seq::<(u32, u32)>::empty() =~= v@);
    }
    v
}

/// Reads the embed record at byte `at`; also returns where the next
/// record starts.
fn read_embed(data: &[u8], at: usize) -> (r: Result<(Embed, usize), EmbedError>)
    requires
        at <= data@.len(),
    ensures
        match r {
            Ok((embed, next)) => decode_embed(data@.skip(at as int)) == Ok::<
                (EmbedView, int),
                EmbedError,
            >((embed@, next - at)) && at + 24 <= next <= data@.len(),
            Err(e) => decode_embed(data@.skip(at as int)) == Err::<(EmbedView, int), EmbedError>(
                e,
            ),
        },
{
    let total_len: usize = data.len();
    let ghost here = data@.skip(at as int);
    let left: usize = total_len - at;
    if left < 20 {
        return Err(EmbedError::UnexpectedEof);
    }
    let parent_chunk: u32 = get_u32(data, at);
    let child_chunk: u32 = get_u32(data, at + 4);
    let gate_bit: u32 = get_u32(data, at + 8);
    let mode: u8 = data[at + 12];
    let io_mode = if mode == 0 {
        IoMode::Alias
    } else if mode == 1 {
        IoMode::Copy
    } else {
        return Err(EmbedError::InvalidIoMode(mode));
    };
    let in_count: u32 = get_u32(data, at + 16);
    proof {
        lemma_skip_skip(data@, at as int, 4);
        lemma_skip_skip(data@, at as int, 8);
        lemma_skip_skip(data@, at as int, 16);
    }
    if ((left - 20) as u64) < 8 * (in_count as u64) {
        return Err(EmbedError::UnexpectedEof);
    }
    let in_at: usize = at + 20;
    let map_in = read_pairs(data, in_at, in_count);
    let out_at: usize = in_at + 8 * (in_count as usize);
    if total_len - out_at < 4 {
        return Err(EmbedError::UnexpectedEof);
    }
    let out_count: u32 = get_u32(data, out_at);
    proof {
        lemma_skip_skip(data@, at as int, 20);
        lemma_skip_skip(data@, at as int, 20 + 8 * in_count);
    }
    if ((total_len - out_at - 4) as u64) < 8 * (out_count as u64) {
        return Err(EmbedError::UnexpectedEof);
    }
    let map_out = read_pairs(data, out_at + 4, out_count);
    let end: usize = out_at + 4 + 8 * (out_count as usize);
    proof {
        lemma_skip_skip(data@, at as int, 20 + 8 * in_count + 4);
    }
    Ok(
        (
            Embed { parent_chunk, child_chunk, gate_bit, io_mode, map_in, map_out, gate_prev: false },
            end,
        ),
    )
}

/// Decodes an embed file. Succeeds exactly on the byte strings that
/// [`decode_embeds`] accepts, and reports its error otherwise.
pub fn parse_embeds(data: &[u8]) -> (r: Result<Vec<Embed>, EmbedError>)
    ensures
        match r {
            Ok(v) => decode_embeds(data@) == Ok::<Seq<EmbedView>, EmbedError>(embed_views(v@)),
            Err(e) => decode_embeds(data@) == Err::<Seq<EmbedView>, EmbedError>(e),
        },
{
    let total_len: usize = data.len();
    let mut cursor: usize = 0;
    let mut embeds: Vec<Embed> = Vec::new();
    proof {
        assert(data@.skip(0) =~= data@);
        assert(embed_views(embeds@) =~= Seq::<EmbedView>::empty());
        match decode_embeds(data@) {
            Ok(all) => {
                assert(Seq::<EmbedView>::empty() + all =~= all);
            },
            Err(e) => {},
        }
    }
    while cursor < total_len
        invariant
            cursor <= total_len,
            total_len == data@.len(),
            decode_embeds(data@) == after_embeds(
                embed_views(embeds@),
                decode_embeds(data@.skip(cursor as int)),
            ),
        decreases total_len - cursor,
    {
        let ghost here = data@.skip(cursor as int);
        let (embed, next) = match read_embed(data, cursor) {
            Ok(pair) => pair,
            Err(e) => { return Err(e); },
        };
        proof {
            assert(here.skip(next - cursor) =~= data@.skip(next as int));
            let done = embed_views(embeds@);
            assert(embed_views(embeds@.push(embed)) =~= done.push(embed@));
            match decode_embeds(data@.skip(next as int)) {
                Ok(rest) => {
                    assert(done + (seq![embed@] + rest) =~= done.push(embed@) + rest);
                },
                Err(e) => {},
            }
        }
        embeds.push(embed);
        cursor = next;
    }
    proof {
        assert(embed_views(embeds@) + Seq::<EmbedView>::empty() =~= embed_views(embeds@));
    }
    Ok(embeds)
}


/// The child's input bytes once the parent bits named by `map_in` have
/// been written to them, pair by pair.
pub open spec fn wire_in(child_in: Seq<u8>, parent_internal: Seq<u8>, map_in: Seq<(u32, u32)>) -> Seq<
    u8,
>
    decreases map_in.len(),
{
    if map_in.len() == 0 {
        child_in
    } else {
        with_bit(
            wire_in(child_in, parent_internal, map_in.drop_last()),
            map_in.last().1,
            bit_of_bytes(parent_internal, map_in.last().0 as int),
        )
    }
}

/// The parent's output bytes once the child outputs named by `map_out`
/// have been written to them, pair by pair.
pub open spec fn wire_out(parent_out: Seq<u8>, child_out: Seq<bool>, map_out: Seq<(u32, u32)>) -> Seq<
    u8,
>
    decreases map_out.len(),
{
    if map_out.len() == 0 {
        parent_out
    } else {
        with_bit(
            wire_out(parent_out, child_out, map_out.drop_last()),
            map_out.last().1,
            child_out[map_out.last().0 as int],
        )
    }
}

/// The embed names only bits that exist: its gate and the parent side
/// of `map_in` among the parent's internals, the child side among the
/// child's inputs; the child side of `map_out` among the child's
/// outputs, the parent side among the parent's outputs. The parent's bit
/// sections are sized and the child is runnable.
pub open spec fn embed_fits(e: EmbedView, parent: ChunkView, child: ChunkView) -> bool {
    &&& parent.sized()
    &&& child.runnable()
    &&& e.gate_bit < parent.internal_count
    &&& forall|i: int|
        0 <= i < e.map_in.len() ==> (#[trigger] e.map_in[i]).0 < parent.internal_count
            && e.map_in[i].1 < child.input_count
    &&& forall|i: int|
        0 <= i < e.map_out.len() ==> (#[trigger] e.map_out[i]).0 < child.output_count
            && e.map_out[i].1 < parent.output_count
}

/// `gate_bit` of the embed is set in the parent.
pub open spec fn gate_open(parent: ChunkView, e: EmbedView) -> bool {
    bit_of_bytes(parent.internal_bits, e.gate_bit as int)
}

/// The child with its inputs taken from the parent.
pub open spec fn fed_child(parent: ChunkView, child: ChunkView, e: EmbedView) -> ChunkView {
    ChunkView { input_bits: wire_in(child.input_bits, parent.internal_bits, e.map_in), ..child }
}

/// The parent once the outputs of the settled run of `child` have been
/// written to it.
pub open spec fn with_child_outputs(parent: ChunkView, child: ChunkView, e: EmbedView) -> ChunkView {
    ChunkView {
        output_bits: wire_out(parent.output_bits, settled(child).output, e.map_out),
        ..parent
    }
}

/// Wiring keeps the number of bytes.
pub proof fn lemma_wire_in_len(child_in: Seq<u8>, parent_internal: Seq<u8>, map_in: Seq<(u32, u32)>)
    requires
        forall|i: int| 0 <= i < map_in.len() ==> (#[trigger] map_in[i]).1 / 8 < child_in.len(),
    ensures
        wire_in(child_in, parent_internal, map_in).len() == child_in.len(),
    decreases map_in.len(),
{
    if map_in.len() > 0 {
        assert forall|i: int| 0 <= i < map_in.drop_last().len() implies (
        #[trigger] map_in.drop_last()[i]).1 / 8 < child_in.len() by {
            assert(map_in.drop_last()[i] == map_in[i]);
        }
        lemma_wire_in_len(child_in, parent_internal, map_in.drop_last());
        assert(map_in[map_in.len() - 1].1 / 8 < child_in.len());
        lemma_with_bit(
            wire_in(child_in, parent_internal, map_in.drop_last()),
            map_in.last().1,
            bit_of_bytes(parent_internal, map_in.last().0 as int),
        );
    }
}

/// Wiring keeps the number of bytes.
pub proof fn lemma_wire_out_len(parent_out: Seq<u8>, child_out: Seq<bool>, map_out: Seq<(u32, u32)>)
    requires
        forall|i: int| 0 <= i < map_out.len() ==> (#[trigger] map_out[i]).1 / 8 < parent_out.len(),
    ensures
        wire_out(parent_out, child_out, map_out).len() == parent_out.len(),
    decreases map_out.len(),
{
    if map_out.len() > 0 {
        assert forall|i: int| 0 <= i < map_out.drop_last().len() implies (
        #[trigger] map_out.drop_last()[i]).1 / 8 < parent_out.len() by {
            assert(map_out.drop_last()[i] == map_out[i]);
        }
        lemma_wire_out_len(parent_out, child_out, map_out.drop_last());
        assert(map_out[map_out.len() - 1].1 / 8 < parent_out.len());
        lemma_with_bit(
            wire_out(parent_out, child_out, map_out.drop_last()),
            map_out.last().1,
            child_out[map_out.last().0 as int],
        );
    }
}

/// Writes the parent bits named by `map_in` to the child's inputs.
fn copy_in(child_in: &mut Vec<u8>, parent_internal: &Vec<u8>, map_in: &Vec<(u32, u32)>)
    requires
        forall|i: int|
            0 <= i < map_in@.len() ==> (#[trigger] map_in@[i]).0 / 8 < parent_internal@.len()
                && map_in@[i].1 / 8 < old(child_in)@.len(),
    ensures
        final(child_in)@ == wire_in(old(child_in)@, parent_internal@, map_in@),
        final(child_in)@.len() == old(child_in)@.len(),
{
    let n: usize = map_in.len();
    let mut i: usize = 0;
    assert(map_in@.take(0) =~= Seq::<(u32, u32)>::empty());
    while i < n
        invariant
            i <= n,
            n == map_in@.len(),
            child_in@.len() == old(child_in)@.len(),
            forall|k: int|
                0 <= k < map_in@.len() ==> (#[trigger] map_in@[k]).0 / 8 < parent_internal@.len()
                    && map_in@[k].1 / 8 < old(child_in)@.len(),
            child_in@ == wire_in(old(child_in)@, parent_internal@, map_in@.take(i as int)),
        decreases n - i,
    {
        let pair: (u32, u32) = map_in[i];
        assert(map_in@[i as int].0 / 8 < parent_internal@.len());
        let val: bool = byte_bit_at(parent_internal.as_slice(), pair.0);
        set_byte_bit(child_in, pair.1, val);
        proof {
            assert(map_in@.take(i + 1).drop_last() =~= map_in@.take(i as int));
        }
        i = i + 1;
    }
    assert(map_in@.take(n as int) =~= map_in@);
}

/// Writes the child outputs named by `map_out` to the parent's outputs.
fn copy_out(
    parent_out: &mut Vec<u8>,
    child_out: &Vec<u8>,
    map_out: &Vec<(u32, u32)>,
    Ghost(bits): Ghost<Seq<bool>>,
)
    requires
        packs_bytes(child_out@, bits),
        forall|i: int|
            0 <= i < map_out@.len() ==> (#[trigger] map_out@[i]).0 < bits.len() && map_out@[i].1 / 8
                < old(parent_out)@.len(),
    ensures
        final(parent_out)@ == wire_out(old(parent_out)@, bits, map_out@),
        final(parent_out)@.len() == old(parent_out)@.len(),
{
    let n: usize = map_out.len();
    let mut i: usize = 0;
    assert(map_out@.take(0) =~= Seq::<(u32, u32)>::empty());
    while i < n
        invariant
            i <= n,
            n == map_out@.len(),
            parent_out@.len() == old(parent_out)@.len(),
            packs_bytes(child_out@, bits),
            forall|k: int|
                0 <= k < map_out@.len() ==> (#[trigger] map_out@[k]).0 < bits.len()
                    && map_out@[k].1 / 8 < old(parent_out)@.len(),
            parent_out@ == wire_out(old(parent_out)@, bits, map_out@.take(i as int)),
        decreases n - i,
    {
        let pair: (u32, u32) = map_out[i];
        assert(map_out@[i as int].0 < bits.len());
        let val: bool = byte_bit_at(child_out.as_slice(), pair.0);
        set_byte_bit(parent_out, pair.1, val);
        proof {
            assert(map_out@.take(i + 1).drop_last() =~= map_out@.take(i as int));
        }
        i = i + 1;
    }
    assert(map_out@.take(n as int) =~= map_out@);
}

/// Alias mode. With `gate_bit` low nothing happens. With it set, a
/// copy of the child takes its inputs from the parent, runs to rest, and
/// its outputs are written to the parent's outputs. The child itself is
/// not changed.
pub fn execute_gated_alias(parent: &mut MycosChunk, child: &MycosChunk, embed: &Embed)
    requires
        embed_fits(embed@, old(parent)@, child@),
    ensures
        !gate_open(old(parent)@, embed@) ==> final(parent)@ == old(parent)@,
        gate_open(old(parent)@, embed@) ==> final(parent)@ == with_child_outputs(
            old(parent)@,
            fed_child(old(parent)@, child@, embed@),
            embed@,
        ),
        embed_fits(embed@, final(parent)@, child@),
{
    if !byte_bit_at(parent.internal_bits.as_slice(), embed.gate_bit) {
        return ;
    }
    let mut fed: MycosChunk = child.duplicate();
    proof {
        assert forall|i: int| 0 <= i < embed.map_in@.len() implies (
        #[trigger] embed.map_in@[i]).0 / 8 < parent.internal_bits@.len() && embed.map_in@[i].1 / 8
            < fed.input_bits@.len() by {
            assert(embed@.map_in[i].0 < parent@.internal_count);
        }
    }
    copy_in(&mut fed.input_bits, &parent.internal_bits, &embed.map_in);
    assert(fed@ == fed_child(old(parent)@, child@, embed@));
    assert(fed@.runnable()) by {
        assert forall|i: int| 0 <= i < fed@.connections.len() implies (
        #[trigger] fed@.connections[i]).to_section == Section::Input || fed@.aims_inside(i) by {
            assert(child@.connections[i].to_section == Section::Input || child@.aims_inside(i));
        }
    }
    let (_ci, child_out, _cn) = execute(&fed);
    proof {
        assert forall|i: int| 0 <= i < embed.map_out@.len() implies (
        #[trigger] embed.map_out@[i]).0 < settled(fed@).output.len() && embed.map_out@[i].1 / 8
            < parent.output_bits@.len() by {
            assert(embed@.map_out[i].0 < child@.output_count);
        }
    }
    copy_out(&mut parent.output_bits, &child_out, &embed.map_out, Ghost(settled(fed@).output));
}

/// Copy mode. When `gate_bit` has risen since the last call, the child
/// takes its inputs from the parent. While `gate_bit` is set, the child
/// runs to rest from the state it was left in, keeps the state it comes
/// to, and its outputs are written to the parent's outputs. With the
/// `gate_bit` low nothing happens. Its value is remembered either way.
pub fn execute_gated_copy(parent: &mut MycosChunk, child: &mut MycosChunk, embed: &mut Embed)
    requires
        embed_fits(old(embed)@, old(parent)@, old(child)@),
    ensures
        final(embed)@ == (EmbedView {
            gate_prev: gate_open(old(parent)@, old(embed)@),
            ..old(embed)@
        }),
        !gate_open(old(parent)@, old(embed)@) ==> final(parent)@ == old(parent)@ && final(child)@
            == old(child)@,
        gate_open(old(parent)@, old(embed)@) ==> ({
            let fed = if old(embed).gate_prev {
                old(child)@
            } else {
                fed_child(old(parent)@, old(child)@, old(embed)@)
            };
            &&& final(parent)@ == with_child_outputs(old(parent)@, fed, old(embed)@)
            &&& final(child)@ == (ChunkView {
                input_bits: final(child)@.input_bits,
                output_bits: final(child)@.output_bits,
                internal_bits: final(child)@.internal_bits,
                ..old(child)@
            })
            &&& packs_bytes(
                final(child)@.input_bits,
                unpack_bytes(fed.input_bits, fed.input_count as int),
            )
            &&& packs_bytes(final(child)@.output_bits, settled(fed).output)
            &&& packs_bytes(final(child)@.internal_bits, settled(fed).internal)
        }),
        embed_fits(final(embed)@, final(parent)@, final(child)@),
{
    let gate_now: bool = byte_bit_at(parent.internal_bits.as_slice(), embed.gate_bit);
    if gate_now && !embed.gate_prev {
        proof {
            assert forall|i: int| 0 <= i < embed.map_in@.len() implies (
            #[trigger] embed.map_in@[i]).0 / 8 < parent.internal_bits@.len()
                && embed.map_in@[i].1 / 8 < child.input_bits@.len() by {
                assert(embed@.map_in[i].0 < parent@.internal_count);
            }
        }
        copy_in(&mut child.input_bits, &parent.internal_bits, &embed.map_in);
    }
    if gate_now {
        let ghost fed = child@;
        assert(fed.runnable()) by {
            assert forall|i: int| 0 <= i < fed.connections.len() implies (
            #[trigger] fed.connections[i]).to_section == Section::Input || fed.aims_inside(i) by {
                assert(old(child)@.connections[i].to_section == Section::Input || old(
                    child,
                )@.aims_inside(i));
            }
        }
        let (ci, co, cn) = execute(child);
        proof {
            assert forall|i: int| 0 <= i < embed.map_out@.len() implies (
            #[trigger] embed.map_out@[i]).0 < settled(fed).output.len() && embed.map_out@[i].1 / 8
                < parent.output_bits@.len() by {
                assert(embed@.map_out[i].0 < old(child)@.output_count);
            }
        }
        copy_out(&mut parent.output_bits, &co, &embed.map_out, Ghost(settled(fed).output));
        child.input_bits = ci;
        child.output_bits = co;
        child.internal_bits = cn;
        proof {
            assert(child@.runnable()) by {
                assert forall|i: int| 0 <= i < child@.connections.len() implies (
                #[trigger] child@.connections[i]).to_section == Section::Input
                    || child@.aims_inside(i) by {
                    assert(old(child)@.connections[i].to_section == Section::Input || old(
                        child,
                    )@.aims_inside(i));
                }
            }
        }
    }
    embed.gate_prev = gate_now;
}

} // verus!
