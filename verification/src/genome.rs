//! Genomes: chunk genes, connection genes and link genes, with their
//! validation and canonical order.

use vstd::prelude::*;
use bitvec::order::Lsb0;
use bitvec::vec::BitVec;
use crate::order::{sort_in_place, sort_items, Tagged};

verus! {

/// A growable vector of bits, kept in bitvec's `BitVec<u8, Lsb0>`.
/// Nothing inside it is visible here; what it holds is spoken of through
/// [`bits_of`].
#[verifier::external_body]
#[derive(Debug)]
pub struct Bits {
    inner: BitVec<u8, Lsb0>,
}

/// The bits that a bit vector holds, in index order.
pub uninterp spec fn bits_of(v: Bits) -> Seq<bool>;

/// The most bits that a bit vector can hold.
pub open spec fn max_bits() -> int {
    usize::MAX as int / 8
}

/// Computes [`max_bits`].
pub fn max_bits_limit() -> (n: usize)
    ensures
        n == max_bits(),
{
    usize::MAX / 8
}

impl View for Bits {
    type V = Seq<bool>;

    open spec fn view(&self) -> Seq<bool> {
        bits_of(*self)
    }
}

impl Bits {
    /// `Clone` for `BitVec`: the same bits.
    #[verifier::external_body]
    fn bv_clone(&self) -> (v: Bits)
        ensures
            bits_of(v) == bits_of(*self),
    {
        Bits { inner: self.inner.clone() }
    }

    /// `BitVec::new`: no bits.
    #[verifier::external_body]
    fn bv_new() -> (v: Bits)
        ensures
            bits_of(v) == Seq::<bool>::empty(),
    {
        Bits { inner: BitVec::new() }
    }

    /// `BitVec::repeat`: `len` bits, all `bit`. It panics above
    /// `BitSlice::MAX_BITS`.
    #[verifier::external_body]
    fn bv_repeat(bit: bool, len: usize) -> (v: Bits)
        requires
            len <= max_bits(),
        ensures
            bits_of(v) == Seq::new(len as nat, |i: int| bit),
    {
        Bits { inner: BitVec::repeat(bit, len) }
    }

    /// `FromIterator<bool>` for `BitVec`, which pushes the bits one by
    /// one. It panics above `BitSlice::MAX_BITS`.
    #[verifier::external_body]
    fn bv_collect(bits: &Vec<bool>) -> (v: Bits)
        requires
            bits@.len() <= max_bits(),
        ensures
            bits_of(v) == bits@,
    {
        Bits { inner: bits.iter().copied().collect() }
    }

    /// `BitSlice::iter` with `by_vals`: the bits in index order.
    #[verifier::external_body]
    fn bv_values(&self) -> (bits: Vec<bool>)
        ensures
            bits@ == bits_of(*self),
    {
        self.inner.iter().by_vals().collect()
    }

    /// `BitVec::len`. A bit vector never holds more than
    /// `BitSlice::MAX_BITS` bits.
    #[verifier::external_body]
    fn bv_len(&self) -> (n: usize)
        ensures
            n == bits_of(*self).len(),
            n <= max_bits(),
    {
        self.inner.len()
    }

    /// Indexing a `BitSlice`: the bit at `index`. It panics out of
    /// bounds.
    #[verifier::external_body]
    fn bv_index(&self, index: usize) -> (bit: bool)
        requires
            index < bits_of(*self).len(),
        ensures
            bit == bits_of(*self)[index as int],
    {
        self.inner[index]
    }

    /// `BitSlice::set`: writes the bit at `index`. It panics out of
    /// bounds.
    #[verifier::external_body]
    fn bv_set(&mut self, index: usize, value: bool)
        requires
            index < bits_of(*old(self)).len(),
        ensures
            bits_of(*final(self)) == bits_of(*old(self)).update(index as int, value),
    {
        self.inner.set(index, value);
    }

    /// `BitVec::resize`: cuts the vector to `new_len` bits, or fills it
    /// up to `new_len` bits with `value`. It panics above
    /// `BitSlice::MAX_BITS`.
    #[verifier::external_body]
    fn bv_resize(&mut self, new_len: usize, value: bool)
        requires
            new_len <= max_bits(),
        ensures
            bits_of(*final(self)) == (if new_len <= bits_of(*old(self)).len() {
                bits_of(*old(self)).take(new_len as int)
            } else {
                bits_of(*old(self)) + Seq::new(
                    (new_len - bits_of(*old(self)).len()) as nat,
                    |i: int| value,
                )
            }),
    {
        self.inner.resize(new_len, value);
    }

    /// `BitVec::remove`: takes the bit at `index` out and returns it;
    /// the bits behind it move up. It panics out of bounds.
    #[verifier::external_body]
    fn bv_remove(&mut self, index: usize) -> (bit: bool)
        requires
            index < bits_of(*old(self)).len(),
        ensures
            bit == bits_of(*old(self))[index as int],
            bits_of(*final(self)) == bits_of(*old(self)).remove(index as int),
    {
        self.inner.remove(index)
    }
}

impl Clone for Bits {
    /// A bit vector of the same bits.
    fn clone(&self) -> (v: Bits)
        ensures
            v@ == self@,
    {
        self.bv_clone()
    }
}

impl Bits {
    /// A bit vector without bits.
    pub fn new() -> (v: Bits)
        ensures
            v@ == Seq::<bool>::empty(),
    {
        Bits::bv_new()
    }

    /// A bit vector of `len` bits, all `bit`.
    pub fn repeat(bit: bool, len: usize) -> (v: Bits)
        requires
            len <= max_bits(),
        ensures
            v@ == Seq::new(len as nat, |i: int| bit),
    {
        Bits::bv_repeat(bit, len)
    }

    /// A bit vector of the given bits.
    pub fn from_bools(bits: &Vec<bool>) -> (v: Bits)
        requires
            bits@.len() <= max_bits(),
        ensures
            v@ == bits@,
    {
        Bits::bv_collect(bits)
    }

    /// The bits as a vector.
    pub fn to_bools(&self) -> (bits: Vec<bool>)
        ensures
            bits@ == self@,
    {
        self.bv_values()
    }

    /// The number of bits, which is never more than [`max_bits`].
    pub fn len(&self) -> (n: usize)
        ensures
            n == self@.len(),
            n <= max_bits(),
    {
        self.bv_len()
    }

    /// The bit at `index`.
    pub fn get(&self, index: usize) -> (bit: bool)
        requires
            index < self@.len(),
        ensures
            bit == self@[index as int],
    {
        self.bv_index(index)
    }

    /// Writes the bit at `index`.
    pub fn set(&mut self, index: usize, value: bool)
        requires
            index < old(self)@.len(),
        ensures
            final(self)@ == old(self)@.update(index as int, value),
    {
        self.bv_set(index, value);
    }

    /// Cuts the vector to `new_len` bits, or fills it up to `new_len`
    /// bits with `value`.
    pub fn resize(&mut self, new_len: usize, value: bool)
        requires
            new_len <= max_bits(),
        ensures
            final(self)@ == (if new_len <= old(self)@.len() {
                old(self)@.take(new_len as int)
            } else {
                old(self)@ + Seq::new((new_len - old(self)@.len()) as nat, |i: int| value)
            }),
    {
        self.bv_resize(new_len, value);
    }

    /// Takes the bit at `index` out and returns it; the bits behind it
    /// move up.
    pub fn remove(&mut self, index: usize) -> (bit: bool)
        requires
            index < old(self)@.len(),
        ensures
            bit == old(self)@[index as int],
            final(self)@ == old(self)@.remove(index as int),
    {
        self.bv_remove(index)
    }
}

/// Why a genome was turned down.
#[derive(Debug, Clone, Copy, PartialEq, Eq, Structural)]
pub enum ValidationError {
    InvalidConnEdge { from_section: u8, to_section: u8 },
    FromIndexOutOfRange { section: u8, index: u32 },
    ToIndexOutOfRange { section: u8, index: u32 },
    InputsLenMismatch { expected: u32, actual: usize },
    OutputsLenMismatch { expected: u32, actual: usize },
    InternalsLenMismatch { expected: u32, actual: usize },
    InvalidLinkFromChunk(u32),
    InvalidLinkToChunk(u32),
    InvalidLinkFromIndex { chunk: u32, index: u32 },
    InvalidLinkToIndex { chunk: u32, index: u32 },
    InvalidTrigger(u8),
    InvalidAction(u8),
}

/// A connection inside a chunk, with its sections, trigger and action
/// as wire bytes.
#[derive(Debug, Clone, Copy, PartialEq, Eq, Structural)]
pub struct ConnGene {
    pub from_section: u8,
    pub to_section: u8,
    pub trigger: u8,
    pub action: u8,
    pub from_index: u32,
    pub to_index: u32,
    pub order_tag: u32,
}

/// A link between chunks, with its trigger and action as wire bytes.
#[derive(Debug, Clone, Copy, PartialEq, Eq, Structural)]
pub struct LinkGene {
    pub from_chunk: u32,
    pub from_out_idx: u32,
    pub trigger: u8,
    pub action: u8,
    pub to_chunk: u32,
    pub to_in_idx: u32,
    pub order_tag: u32,
}

impl ConnGene {
    /// What is wrong with the gene by itself, if anything: a trigger or
    /// an action above 2, or an edge that is not Input→Internal,
    /// Internal→Internal or Internal→Output. The trigger is looked at
    /// first, then the action, then the edge.
    pub open spec fn defect(self) -> Option<ValidationError> {
        if self.trigger > 2 {
            Some(ValidationError::InvalidTrigger(self.trigger))
        } else if self.action > 2 {
            Some(ValidationError::InvalidAction(self.action))
        } else if (self.from_section == 0 && self.to_section == 1) || (self.from_section == 1 && (
        self.to_section == 1 || self.to_section == 2)) {
            None
        } else {
            Some(
                ValidationError::InvalidConnEdge {
                    from_section: self.from_section,
                    to_section: self.to_section,
                },
            )
        }
    }

    /// What is wrong with the gene in a chunk of the given size, if
    /// anything: first what is wrong with it by itself, then a source
    /// index out of range, then a target index out of range.
    pub open spec fn defect_in(self, ni: u32, no: u32, nn: u32) -> Option<ValidationError> {
        if self.defect() is Some {
            self.defect()
        } else if self.from_section == 0 && self.from_index >= ni {
            Some(
                ValidationError::FromIndexOutOfRange {
                    section: self.from_section,
                    index: self.from_index,
                },
            )
        } else if self.from_section == 1 && self.from_index >= nn {
            Some(
                ValidationError::FromIndexOutOfRange {
                    section: self.from_section,
                    index: self.from_index,
                },
            )
        } else if self.to_section == 1 && self.to_index >= nn {
            Some(
                ValidationError::ToIndexOutOfRange { section: self.to_section, index: self.to_index },
            )
        } else if self.to_section == 2 && self.to_index >= no {
            Some(
                ValidationError::ToIndexOutOfRange { section: self.to_section, index: self.to_index },
            )
        } else {
            None
        }
    }

    /// A connection gene, if it is valid by itself.
    pub fn new(
        from_section: u8,
        to_section: u8,
        trigger: u8,
        action: u8,
        from_index: u32,
        to_index: u32,
        order_tag: u32,
    ) -> (r: Result<ConnGene, ValidationError>)
        ensures
            r == (match (ConnGene {
                from_section,
                to_section,
                trigger,
                action,
                from_index,
                to_index,
                order_tag,
            }).defect() {
                Some(e) => Err::<ConnGene, ValidationError>(e),
                None => Ok::<ConnGene, ValidationError>(
                    ConnGene {
                        from_section,
                        to_section,
                        trigger,
                        action,
                        from_index,
                        to_index,
                        order_tag,
                    },
                ),
            }),
    {
        let conn = ConnGene {
            from_section,
            to_section,
            trigger,
            action,
            from_index,
            to_index,
            order_tag,
        };
        match conn.validate() {
            Ok(()) => Ok(conn),
            Err(e) => Err(e),
        }
    }

    /// Checks the gene by itself.
    pub fn validate(&self) -> (r: Result<(), ValidationError>)
        ensures
            r == (match self.defect() {
                Some(e) => Err::<(), ValidationError>(e),
                None => Ok::<(), ValidationError>(()),
            }),
    {
        if self.trigger > 2 {
            return Err(ValidationError::InvalidTrigger(self.trigger));
        }
        if self.action > 2 {
            return Err(ValidationError::InvalidAction(self.action));
        }
        if (self.from_section == 0 && self.to_section == 1) || (self.from_section == 1 && (
        self.to_section == 1 || self.to_section == 2)) {
            Ok(())
        } else {
            Err(
                ValidationError::InvalidConnEdge {
                    from_section: self.from_section,
                    to_section: self.to_section,
                },
            )
        }
    }

    /// Checks the gene in a chunk of the given size.
    pub fn validate_in(&self, ni: u32, no: u32, nn: u32) -> (r: Result<(), ValidationError>)
        ensures
            r == (match self.defect_in(ni, no, nn) {
                Some(e) => Err::<(), ValidationError>(e),
                None => Ok::<(), ValidationError>(()),
            }),
    {
        match self.validate() {
            Ok(()) => {},
            Err(e) => {
                return Err(e);
            },
        }
        if self.from_section == 0 {
            if self.from_index >= ni {
                return Err(
                    ValidationError::FromIndexOutOfRange {
                        section: self.from_section,
                        index: self.from_index,
                    },
                );
            }
        } else {
            if self.from_index >= nn {
                return Err(
                    ValidationError::FromIndexOutOfRange {
                        section: self.from_section,
                        index: self.from_index,
                    },
                );
            }
        }
        if self.to_section == 1 {
            if self.to_index >= nn {
                return Err(
                    ValidationError::ToIndexOutOfRange {
                        section: self.to_section,
                        index: self.to_index,
                    },
                );
            }
        } else {
            if self.to_index >= no {
                return Err(
                    ValidationError::ToIndexOutOfRange {
                        section: self.to_section,
                        index: self.to_index,
                    },
                );
            }
        }
        Ok(())
    }
}

impl Tagged for ConnGene {
    open spec fn source(&self) -> (int, int) {
        (self.from_section as int, self.from_index as int)
    }

    open spec fn tag(&self) -> u32 {
        self.order_tag
    }

    open spec fn retagged(&self, tag: u32) -> ConnGene {
        ConnGene { order_tag: tag, ..*self }
    }

    proof fn lemma_retagged(&self, tag: u32) {
    }

    fn precedes(&self, other: &ConnGene) -> (r: bool) {
        self.from_section < other.from_section || (self.from_section == other.from_section && (
        self.from_index < other.from_index || (self.from_index == other.from_index
            && self.order_tag <= other.order_tag)))
    }

    fn same_source(&self, other: &ConnGene) -> (r: bool) {
        self.from_section == other.from_section && self.from_index == other.from_index
    }

    fn order_tag(&self) -> (r: u32) {
        self.order_tag
    }

    fn with_tag(&self, tag: u32) -> (r: ConnGene) {
        ConnGene { order_tag: tag, ..*self }
    }
}

impl LinkGene {
    /// What is wrong with the gene by itself, if anything: a trigger or
    /// an action above 2.
    pub open spec fn defect(self) -> Option<ValidationError> {
        if self.trigger > 2 {
            Some(ValidationError::InvalidTrigger(self.trigger))
        } else if self.action > 2 {
            Some(ValidationError::InvalidAction(self.action))
        } else {
            None
        }
    }

    /// A link gene, if it is valid by itself.
    pub fn new(
        from_chunk: u32,
        from_out_idx: u32,
        trigger: u8,
        action: u8,
        to_chunk: u32,
        to_in_idx: u32,
        order_tag: u32,
    ) -> (r: Result<LinkGene, ValidationError>)
        ensures
            r == (match (LinkGene {
                from_chunk,
                from_out_idx,
                trigger,
                action,
                to_chunk,
                to_in_idx,
                order_tag,
            }).defect() {
                Some(e) => Err::<LinkGene, ValidationError>(e),
                None => Ok::<LinkGene, ValidationError>(
                    LinkGene {
                        from_chunk,
                        from_out_idx,
                        trigger,
                        action,
                        to_chunk,
                        to_in_idx,
                        order_tag,
                    },
                ),
            }),
    {
        let link = LinkGene {
            from_chunk,
            from_out_idx,
            trigger,
            action,
            to_chunk,
            to_in_idx,
            order_tag,
        };
        match link.validate() {
            Ok(()) => Ok(link),
            Err(e) => Err(e),
        }
    }

    /// Checks the gene by itself.
    pub fn validate(&self) -> (r: Result<(), ValidationError>)
        ensures
            r == (match self.defect() {
                Some(e) => Err::<(), ValidationError>(e),
                None => Ok::<(), ValidationError>(()),
            }),
    {
        if self.trigger > 2 {
            return Err(ValidationError::InvalidTrigger(self.trigger));
        }
        if self.action > 2 {
            return Err(ValidationError::InvalidAction(self.action));
        }
        Ok(())
    }
}

impl Tagged for LinkGene {
    open spec fn source(&self) -> (int, int) {
        (self.from_chunk as int, self.from_out_idx as int)
    }

    open spec fn tag(&self) -> u32 {
        self.order_tag
    }

    open spec fn retagged(&self, tag: u32) -> LinkGene {
        LinkGene { order_tag: tag, ..*self }
    }

    proof fn lemma_retagged(&self, tag: u32) {
    }

    fn precedes(&self, other: &LinkGene) -> (r: bool) {
        self.from_chunk < other.from_chunk || (self.from_chunk == other.from_chunk && (
        self.from_out_idx < other.from_out_idx || (self.from_out_idx == other.from_out_idx
            && self.order_tag <= other.order_tag)))
    }

    fn same_source(&self, other: &LinkGene) -> (r: bool) {
        self.from_chunk == other.from_chunk && self.from_out_idx == other.from_out_idx
    }

    fn order_tag(&self) -> (r: u32) {
        self.order_tag
    }

    fn with_tag(&self, tag: u32) -> (r: LinkGene) {
        LinkGene { order_tag: tag, ..*self }
    }
}


/// The gene of one chunk: its bit counts, the initial bits of its three
/// sections, and its connections.
#[derive(Debug, Clone)]
pub struct ChunkGene {
    pub ni: u32,
    pub no: u32,
    pub nn: u32,
    pub inputs_init: Bits,
    pub outputs_init: Bits,
    pub internals_init: Bits,
    pub conns: Vec<ConnGene>,
}

/// The seed and the tag that a genome carries along.
#[derive(Debug, Clone)]
pub struct GenomeMeta {
    pub seed: u64,
    pub tag: String,
}

/// A genome: chunk genes, link genes and metadata.
#[derive(Debug, Clone)]
pub struct Genome {
    pub chunks: Vec<ChunkGene>,
    pub links: Vec<LinkGene>,
    pub meta: GenomeMeta,
}

/// The mathematical content of a [`ChunkGene`].
pub struct ChunkGeneView {
    pub ni: u32,
    pub no: u32,
    pub nn: u32,
    pub inputs_init: Seq<bool>,
    pub outputs_init: Seq<bool>,
    pub internals_init: Seq<bool>,
    pub conns: Seq<ConnGene>,
}

/// The mathematical content of a [`Genome`].
pub struct GenomeView {
    pub chunks: Seq<ChunkGeneView>,
    pub links: Seq<LinkGene>,
    pub seed: u64,
    pub tag: Seq<char>,
}

impl View for ChunkGene {
    type V = ChunkGeneView;

    open spec fn view(&self) -> ChunkGeneView {
        ChunkGeneView {
            ni: self.ni,
            no: self.no,
            nn: self.nn,
            inputs_init: self.inputs_init@,
            outputs_init: self.outputs_init@,
            internals_init: self.internals_init@,
            conns: self.conns@,
        }
    }
}

/// The views of a sequence of chunk genes.
pub open spec fn chunk_views(v: Seq<ChunkGene>) -> Seq<ChunkGeneView> {
    Seq::new(v.len(), |i: int| v[i]@)
}

impl View for Genome {
    type V = GenomeView;

    open spec fn view(&self) -> GenomeView {
        GenomeView {
            chunks: chunk_views(self.chunks@),
            links: self.links@,
            seed: self.meta.seed,
            tag: self.meta.tag@,
        }
    }
}

/// The first defect among the connections from `i` on, if there is
/// one.
pub open spec fn conn_defect_from(c: ChunkGeneView, i: int) -> Option<ValidationError>
    decreases c.conns.len() - i,
{
    if i < 0 || i >= c.conns.len() {
        None
    } else {
        match c.conns[i].defect_in(c.ni, c.no, c.nn) {
            Some(e) => Some(e),
            None => conn_defect_from(c, i + 1),
        }
    }
}

impl ChunkGeneView {
    /// What is wrong with the chunk gene, if anything: initial inputs,
    /// outputs or internals that are not as many as the count says, in
    /// this order, or else the first defect among its connections.
    pub open spec fn defect(self) -> Option<ValidationError> {
        if self.inputs_init.len() != self.ni {
            Some(
                ValidationError::InputsLenMismatch {
                    expected: self.ni,
                    actual: self.inputs_init.len() as usize,
                },
            )
        } else if self.outputs_init.len() != self.no {
            Some(
                ValidationError::OutputsLenMismatch {
                    expected: self.no,
                    actual: self.outputs_init.len() as usize,
                },
            )
        } else if self.internals_init.len() != self.nn {
            Some(
                ValidationError::InternalsLenMismatch {
                    expected: self.nn,
                    actual: self.internals_init.len() as usize,
                },
            )
        } else {
            conn_defect_from(self, 0)
        }
    }

    /// The chunk gene with its connections in canonical order.
    pub open spec fn sorted(self) -> ChunkGeneView {
        ChunkGeneView { conns: sort_items(self.conns), ..self }
    }
}

/// What is wrong with `link` in a genome with chunks `chunks`, if
/// anything: first what is wrong with it by itself, then a source chunk
/// or a target chunk that does not exist, then a source output or a
/// target input that does not exist.
pub open spec fn link_gene_defect(link: LinkGene, chunks: Seq<ChunkGeneView>) -> Option<
    ValidationError,
> {
    if link.defect() is Some {
        link.defect()
    } else if link.from_chunk >= chunks.len() {
        Some(ValidationError::InvalidLinkFromChunk(link.from_chunk))
    } else if link.to_chunk >= chunks.len() {
        Some(ValidationError::InvalidLinkToChunk(link.to_chunk))
    } else if link.from_out_idx >= chunks[link.from_chunk as int].no {
        Some(
            ValidationError::InvalidLinkFromIndex { chunk: link.from_chunk, index: link.from_out_idx },
        )
    } else if link.to_in_idx >= chunks[link.to_chunk as int].ni {
        Some(ValidationError::InvalidLinkToIndex { chunk: link.to_chunk, index: link.to_in_idx })
    } else {
        None
    }
}

/// The first defect among the chunk genes from `i` on, if there is
/// one.
pub open spec fn chunk_defect_from(chunks: Seq<ChunkGeneView>, i: int) -> Option<ValidationError>
    decreases chunks.len() - i,
{
    if i < 0 || i >= chunks.len() {
        None
    } else {
        match chunks[i].defect() {
            Some(e) => Some(e),
            None => chunk_defect_from(chunks, i + 1),
        }
    }
}

/// The first defect among the link genes from `i` on, if there is one.
pub open spec fn link_defect_from(
    links: Seq<LinkGene>,
    chunks: Seq<ChunkGeneView>,
    i: int,
) -> Option<ValidationError>
    decreases links.len() - i,
{
    if i < 0 || i >= links.len() {
        None
    } else {
        match link_gene_defect(links[i], chunks) {
            Some(e) => Some(e),
            None => link_defect_from(links, chunks, i + 1),
        }
    }
}

/// What is wrong with chunk genes and link genes taken together, if
/// anything: the first defect among the chunks, or else the first
/// defect among the links.
pub open spec fn population_defect(chunks: Seq<ChunkGeneView>, links: Seq<LinkGene>) -> Option<
    ValidationError,
> {
    match chunk_defect_from(chunks, 0) {
        Some(e) => Some(e),
        None => link_defect_from(links, chunks, 0),
    }
}

impl GenomeView {
    /// What is wrong with the genome, if anything.
    pub open spec fn defect(self) -> Option<ValidationError> {
        population_defect(self.chunks, self.links)
    }

    /// The genome in canonical order: the connections of every chunk
    /// and the links sorted.
    pub open spec fn sorted(self) -> GenomeView {
        GenomeView {
            chunks: Seq::new(self.chunks.len(), |i: int| self.chunks[i].sorted()),
            links: sort_items(self.links),
            ..self
        }
    }
}

impl GenomeMeta {
    /// The metadata of a genome.
    pub fn new(seed: u64, tag: String) -> (m: GenomeMeta)
        ensures
            m.seed == seed,
            m.tag@ == tag@,
    {
        GenomeMeta { seed, tag }
    }
}

impl ChunkGene {
    /// A chunk gene of the given parts, unchecked.
    pub fn new(
        ni: u32,
        no: u32,
        nn: u32,
        inputs_init: Bits,
        outputs_init: Bits,
        internals_init: Bits,
        conns: Vec<ConnGene>,
    ) -> (g: ChunkGene)
        ensures
            g@ == (ChunkGeneView {
                ni,
                no,
                nn,
                inputs_init: inputs_init@,
                outputs_init: outputs_init@,
                internals_init: internals_init@,
                conns: conns@,
            }),
    {
        ChunkGene { ni, no, nn, inputs_init, outputs_init, internals_init, conns }
    }

    /// Checks the chunk gene, and reports its first defect.
    pub fn validate(&self) -> (r: Result<(), ValidationError>)
        ensures
            r == (match self@.defect() {
                Some(e) => Err::<(), ValidationError>(e),
                None => Ok::<(), ValidationError>(()),
            }),
    {
        let inputs: usize = self.inputs_init.len();
        if inputs != self.ni as usize {
            return Err(ValidationError::InputsLenMismatch { expected: self.ni, actual: inputs });
        }
        let outputs: usize = self.outputs_init.len();
        if outputs != self.no as usize {
            return Err(ValidationError::OutputsLenMismatch { expected: self.no, actual: outputs });
        }
        let internals: usize = self.internals_init.len();
        if internals != self.nn as usize {
            return Err(
                ValidationError::InternalsLenMismatch { expected: self.nn, actual: internals },
            );
        }
        let n: usize = self.conns.len();
        let mut i: usize = 0;
        while i < n
            invariant
                i <= n,
                n == self@.conns.len(),
                self@.inputs_init.len() == self.ni,
                self@.outputs_init.len() == self.no,
                self@.internals_init.len() == self.nn,
                conn_defect_from(self@, 0) == conn_defect_from(self@, i as int),
            decreases n - i,
        {
            match self.conns[i].validate_in(self.ni, self.no, self.nn) {
                Ok(()) => {},
                Err(e) => {
                    return Err(e);
                },
            }
            i = i + 1;
        }
        Ok(())
    }

    /// Sorts the connections into canonical order: by source section,
    /// source index and order tag, stably.
    pub fn sort(&mut self)
        ensures
            final(self)@ == old(self)@.sorted(),
    {
        sort_in_place(&mut self.conns);
    }

    /// A copy of this chunk gene with the same content.
    pub fn duplicate(&self) -> (g: ChunkGene)
        ensures
            g@ == self@,
    {
        let mut conns: Vec<ConnGene> = Vec::new();
        let n: usize = self.conns.len();
        let mut i: usize = 0;
        while i < n
            invariant
                i <= n,
                n == self.conns@.len(),
                conns@ == self.conns@.take(i as int),
            decreases n - i,
        {
            conns.push(self.conns[i]);
            i = i + 1;
            assert(conns@ =~= self.conns@.take(i as int));
        }
        assert(self.conns@.take(n as int) =~= self.conns@);
        ChunkGene {
            ni: self.ni,
            no: self.no,
            nn: self.nn,
            inputs_init: self.inputs_init.clone(),
            outputs_init: self.outputs_init.clone(),
            internals_init: self.internals_init.clone(),
            conns,
        }
    }
}

/// Checks chunk genes and link genes together, and reports the first
/// defect.
fn validate_population(chunks: &Vec<ChunkGene>, links: &Vec<LinkGene>) -> (r: Result<
    (),
    ValidationError,
>)
    ensures
        r == (match population_defect(chunk_views(chunks@), links@) {
            Some(e) => Err::<(), ValidationError>(e),
            None => Ok::<(), ValidationError>(()),
        }),
{
    let ghost views = chunk_views(chunks@);
    let n: usize = chunks.len();
    let mut i: usize = 0;
    while i < n
        invariant
            i <= n,
            n == chunks@.len(),
            views == chunk_views(chunks@),
            chunk_defect_from(views, 0) == chunk_defect_from(views, i as int),
        decreases n - i,
    {
        match chunks[i].validate() {
            Ok(()) => {},
            Err(e) => {
                return Err(e);
            },
        }
        i = i + 1;
    }
    let m: usize = links.len();
    let mut j: usize = 0;
    while j < m
        invariant
            j <= m,
            m == links@.len(),
            n == chunks@.len(),
            views == chunk_views(chunks@),
            chunk_defect_from(views, 0) is None,
            link_defect_from(links@, views, 0) == link_defect_from(links@, views, j as int),
        decreases m - j,
    {
        let link: LinkGene = links[j];
        match link.validate() {
            Ok(()) => {},
            Err(e) => {
                return Err(e);
            },
        }
        if link.from_chunk as usize >= n {
            return Err(ValidationError::InvalidLinkFromChunk(link.from_chunk));
        }
        if link.to_chunk as usize >= n {
            return Err(ValidationError::InvalidLinkToChunk(link.to_chunk));
        }
        if link.from_out_idx >= chunks[link.from_chunk as usize].no {
            return Err(
                ValidationError::InvalidLinkFromIndex {
                    chunk: link.from_chunk,
                    index: link.from_out_idx,
                },
            );
        }
        if link.to_in_idx >= chunks[link.to_chunk as usize].ni {
            return Err(
                ValidationError::InvalidLinkToIndex { chunk: link.to_chunk, index: link.to_in_idx },
            );
        }
        j = j + 1;
    }
    Ok(())
}

/// Sorts the connections of every chunk and the links.
fn sort_population(chunks: &mut Vec<ChunkGene>, links: &mut Vec<LinkGene>)
    ensures
        chunk_views(final(chunks)@) == Seq::new(
            old(chunks)@.len(),
            |i: int| old(chunks)@[i]@.sorted(),
        ),
        final(links)@ == sort_items(old(links)@),
{
    let n: usize = chunks.len();
    let mut i: usize = 0;
    while i < n
        invariant
            i <= n,
            n == chunks@.len(),
            n == old(chunks)@.len(),
            forall|k: int| 0 <= k < i ==> (#[trigger] chunks@[k])@ == old(chunks)@[k]@.sorted(),
            forall|k: int| i <= k < n ==> chunks@[k] == old(chunks)@[k],
        decreases n - i,
    {
        chunks[i].sort();
        i = i + 1;
    }
    sort_in_place(links);
    assert(chunk_views(chunks@) =~= Seq::new(
        old(chunks)@.len(),
        |i: int| old(chunks)@[i]@.sorted(),
    ));
}

impl Genome {
    /// A genome of the given parts: validated as given, then sorted
    /// into canonical order.
    pub fn new(chunks: Vec<ChunkGene>, links: Vec<LinkGene>, meta: GenomeMeta) -> (r: Result<
        Genome,
        ValidationError,
    >)
        ensures
            match population_defect(chunk_views(chunks@), links@) {
                Some(e) => r == Err::<Genome, ValidationError>(e),
                None => r is Ok && r->Ok_0@ == (GenomeView {
                    chunks: chunk_views(chunks@),
                    links: links@,
                    seed: meta.seed,
                    tag: meta.tag@,
                }).sorted(),
            },
    {
        match validate_population(&chunks, &links) {
            Ok(()) => {},
            Err(e) => {
                return Err(e);
            },
        }
        let ghost given = GenomeView {
            chunks: chunk_views(chunks@),
            links: links@,
            seed: meta.seed,
            tag: meta.tag@,
        };
        let mut chunks = chunks;
        let mut links = links;
        sort_population(&mut chunks, &mut links);
        let g = Genome { chunks, links, meta };
        proof {
            assert(g@.chunks =~= given.sorted().chunks);
        }
        Ok(g)
    }

    /// Checks the genome, and reports its first defect.
    pub fn validate(&self) -> (r: Result<(), ValidationError>)
        ensures
            r == (match self@.defect() {
                Some(e) => Err::<(), ValidationError>(e),
                None => Ok::<(), ValidationError>(()),
            }),
    {
        validate_population(&self.chunks, &self.links)
    }

    /// A copy of this genome with the same content.
    pub fn duplicate(&self) -> (g: Genome)
        ensures
            g@ == self@,
    {
        let mut chunks: Vec<ChunkGene> = Vec::new();
        let n: usize = self.chunks.len();
        let mut i: usize = 0;
        while i < n
            invariant
                i <= n,
                n == self.chunks@.len(),
                chunks@.len() == i,
                forall|k: int| 0 <= k < i ==> (#[trigger] chunks@[k])@ == self.chunks@[k]@,
            decreases n - i,
        {
            let c = self.chunks[i].duplicate();
            chunks.push(c);
            i = i + 1;
        }
        let links = crate::order::copy_items(&self.links);
        let g = Genome {
            chunks,
            links,
            meta: GenomeMeta { seed: self.meta.seed, tag: self.meta.tag.clone() },
        };
        assert(g@.chunks =~= self@.chunks);
        g
    }

    /// Sorts the genome into canonical order.
    pub fn sort(&mut self)
        ensures
            final(self)@ == old(self)@.sorted(),
    {
        sort_population(&mut self.chunks, &mut self.links);
        assert(self@.chunks =~= old(self)@.sorted().chunks);
    }
}

} // verus!
