//! Chunks, their connections, and the binary chunk codec.
//!
//! An encoded chunk is a 32-byte header, three bit sections padded to a
//! multiple of four bytes, a table of 16-byte connection records, and an
//! optional tail of type-length-value records. All integers are
//! little-endian.

use vstd::prelude::*;
use vstd::utf8::*;
use vstd::string::*;
use crate::bytes::{copy_range, get_u16, get_u32, le_u16, le_u32, lemma_le_round_trip, put_bytes, put_u16, put_u32, put_zeros, u16_le, u32_le, zeros};
use crate::layout::{byte_len, bytes_for, pad4};

verus! {

/// One of the three bit sections of a chunk.
#[derive(Debug, Clone, Copy, PartialEq, Eq, Structural)]
pub enum Section {
    Input,
    Internal,
    Output,
}

/// The edge of a source bit that fires a connection.
#[derive(Debug, Clone, Copy, PartialEq, Eq, Structural)]
pub enum Trigger {
    On,
    Off,
    Toggle,
}

/// What a fired connection does to its target bit.
#[derive(Debug, Clone, Copy, PartialEq, Eq, Structural)]
pub enum Action {
    Enable,
    Disable,
    Toggle,
}

/// Why a chunk was rejected, at parse time or at validation.
#[derive(Debug, Clone, Copy, PartialEq, Eq, Structural)]
pub enum Error {
    InvalidMagic,
    UnsupportedVersion(u16),
    UnexpectedEof,
    InvalidSection(u8),
    InvalidTrigger(u8),
    InvalidAction(u8),
    InvalidConnectionEdge { from: Section, to: Section },
    FromIndexOutOfRange { section: Section, index: u32 },
    ToIndexOutOfRange { section: Section, index: u32 },
    InvalidUtf8,
}

impl Section {
    /// The byte that stands for this section on the wire.
    pub open spec fn tag(self) -> u8 {
        match self {
            Section::Input => 0,
            Section::Internal => 1,
            Section::Output => 2,
        }
    }

    /// What the wire byte `value` decodes to.
    pub open spec fn decode(value: u8) -> Result<Section, Error> {
        if value == 0 {
            Ok(Section::Input)
        } else if value == 1 {
            Ok(Section::Internal)
        } else if value == 2 {
            Ok(Section::Output)
        } else {
            Err(Error::InvalidSection(value))
        }
    }

    pub fn to_u8(self) -> (r: u8)
        ensures
            r == self.tag(),
    {
        match self {
            Section::Input => 0,
            Section::Internal => 1,
            Section::Output => 2,
        }
    }

    pub fn try_from(value: u8) -> (r: Result<Section, Error>)
        ensures
            r == Section::decode(value),
    {
        match value {
            0 => Ok(Section::Input),
            1 => Ok(Section::Internal),
            2 => Ok(Section::Output),
            _ => Err(Error::InvalidSection(value)),
        }
    }
}

impl Trigger {
    /// The byte that stands for this trigger on the wire.
    pub open spec fn tag(self) -> u8 {
        match self {
            Trigger::On => 0,
            Trigger::Off => 1,
            Trigger::Toggle => 2,
        }
    }

    /// What the wire byte `value` decodes to.
    pub open spec fn decode(value: u8) -> Result<Trigger, Error> {
        if value == 0 {
            Ok(Trigger::On)
        } else if value == 1 {
            Ok(Trigger::Off)
        } else if value == 2 {
            Ok(Trigger::Toggle)
        } else {
            Err(Error::InvalidTrigger(value))
        }
    }

    pub fn to_u8(self) -> (r: u8)
        ensures
            r == self.tag(),
    {
        match self {
            Trigger::On => 0,
            Trigger::Off => 1,
            Trigger::Toggle => 2,
        }
    }

    pub fn try_from(value: u8) -> (r: Result<Trigger, Error>)
        ensures
            r == Trigger::decode(value),
    {
        match value {
            0 => Ok(Trigger::On),
            1 => Ok(Trigger::Off),
            2 => Ok(Trigger::Toggle),
            _ => Err(Error::InvalidTrigger(value)),
        }
    }
}

impl Action {
    /// The byte that stands for this action on the wire.
    pub open spec fn tag(self) -> u8 {
        match self {
            Action::Enable => 0,
            Action::Disable => 1,
            Action::Toggle => 2,
        }
    }

    /// What the wire byte `value` decodes to.
    pub open spec fn decode(value: u8) -> Result<Action, Error> {
        if value == 0 {
            Ok(Action::Enable)
        } else if value == 1 {
            Ok(Action::Disable)
        } else if value == 2 {
            Ok(Action::Toggle)
        } else {
            Err(Error::InvalidAction(value))
        }
    }

    pub fn to_u8(self) -> (r: u8)
        ensures
            r == self.tag(),
    {
        match self {
            Action::Enable => 0,
            Action::Disable => 1,
            Action::Toggle => 2,
        }
    }

    pub fn try_from(value: u8) -> (r: Result<Action, Error>)
        ensures
            r == Action::decode(value),
    {
        match value {
            0 => Ok(Action::Enable),
            1 => Ok(Action::Disable),
            2 => Ok(Action::Toggle),
            _ => Err(Error::InvalidAction(value)),
        }
    }
}

/// A directed wire inside a chunk: when the source bit shows `trigger`,
/// `action` is applied to the target bit.
#[derive(Debug, Clone, Copy, PartialEq, Eq, Structural)]
pub struct Connection {
    pub from_section: Section,
    pub to_section: Section,
    pub trigger: Trigger,
    pub action: Action,
    pub from_index: u32,
    pub to_index: u32,
    pub order_tag: u32,
}

/// A chunk: three byte-packed bit sections, their bit counts, the
/// connection table and optional metadata.
#[derive(Debug, Clone)]
pub struct MycosChunk {
    pub input_bits: Vec<u8>,
    pub output_bits: Vec<u8>,
    pub internal_bits: Vec<u8>,
    pub input_count: u32,
    pub output_count: u32,
    pub internal_count: u32,
    pub connections: Vec<Connection>,
    pub name: Option<String>,
    pub note: Option<String>,
    pub build_hash: Option<Vec<u8>>,
}

/// The mathematical content of a chunk.
pub struct ChunkView {
    pub input_bits: Seq<u8>,
    pub output_bits: Seq<u8>,
    pub internal_bits: Seq<u8>,
    pub input_count: u32,
    pub output_count: u32,
    pub internal_count: u32,
    pub connections: Seq<Connection>,
    pub name: Option<Seq<char>>,
    pub note: Option<Seq<char>>,
    pub build_hash: Option<Seq<u8>>,
}

/// View of an optional string.
pub open spec fn text_view(s: Option<String>) -> Option<Seq<char>> {
    match s {
        Some(t) => Some(t@),
        None => None,
    }
}

/// View of an optional byte vector.
pub open spec fn blob_view(s: Option<Vec<u8>>) -> Option<Seq<u8>> {
    match s {
        Some(t) => Some(t@),
        None => None,
    }
}

impl View for MycosChunk {
    type V = ChunkView;

    open spec fn view(&self) -> ChunkView {
        ChunkView {
            input_bits: self.input_bits@,
            output_bits: self.output_bits@,
            internal_bits: self.internal_bits@,
            input_count: self.input_count,
            output_count: self.output_count,
            internal_count: self.internal_count,
            connections: self.connections@,
            name: text_view(self.name),
            note: text_view(self.note),
            build_hash: blob_view(self.build_hash),
        }
    }
}

impl MycosChunk {
    /// A copy of this chunk with the same content.
    pub fn duplicate(&self) -> (r: MycosChunk)
        ensures
            r@ == self@,
    {
        let mut connections: Vec<Connection> = Vec::new();
        let n: usize = self.connections.len();
        let mut i: usize = 0;
        while i < n
            invariant
                i <= n,
                n == self.connections@.len(),
                connections@ == self.connections@.subrange(0, i as int),
            decreases n - i,
        {
            connections.push(self.connections[i]);
            i = i + 1;
            assert(connections@ =~= self.connections@.subrange(0, i as int));
        }
        assert(self.connections@.subrange(0, n as int) =~= self.connections@);
        let input_bits = copy_range(self.input_bits.as_slice(), 0, self.input_bits.len());
        let output_bits = copy_range(self.output_bits.as_slice(), 0, self.output_bits.len());
        let internal_bits = copy_range(self.internal_bits.as_slice(), 0, self.internal_bits.len());
        assert(input_bits@ =~= self.input_bits@);
        assert(output_bits@ =~= self.output_bits@);
        assert(internal_bits@ =~= self.internal_bits@);
        let name = match &self.name {
            Some(t) => Some(t.clone()),
            None => None,
        };
        let note = match &self.note {
            Some(t) => Some(t.clone()),
            None => None,
        };
        let build_hash = match &self.build_hash {
            Some(h) => {
                let v = copy_range(h.as_slice(), 0, h.len());
                assert(v@ =~= h@);
                Some(v)
            },
            None => None,
        };
        MycosChunk {
            input_bits,
            output_bits,
            internal_bits,
            input_count: self.input_count,
            output_count: self.output_count,
            internal_count: self.internal_count,
            connections,
            name,
            note,
            build_hash,
        }
    }
}

/// The first defect of connection `c` in a chunk with the given bit
/// counts, or `None` when the connection is valid: its edge must be
/// Input→Internal, Internal→Internal or Internal→Output, and both indices
/// must lie inside their sections.
pub open spec fn connection_defect(c: Connection, ni: u32, no: u32, nn: u32) -> Option<Error> {
    let edge = Error::InvalidConnectionEdge { from: c.from_section, to: c.to_section };
    if !(c.from_section == Section::Input && c.to_section == Section::Internal
        || c.from_section == Section::Internal && c.to_section == Section::Internal
        || c.from_section == Section::Internal && c.to_section == Section::Output) {
        Some(edge)
    } else if c.from_section == Section::Input && c.from_index >= ni {
        Some(Error::FromIndexOutOfRange { section: c.from_section, index: c.from_index })
    } else if c.from_section == Section::Internal && c.from_index >= nn {
        Some(Error::FromIndexOutOfRange { section: c.from_section, index: c.from_index })
    } else if c.to_section == Section::Internal && c.to_index >= nn {
        Some(Error::ToIndexOutOfRange { section: c.to_section, index: c.to_index })
    } else if c.to_section == Section::Output && c.to_index >= no {
        Some(Error::ToIndexOutOfRange { section: c.to_section, index: c.to_index })
    } else {
        None
    }
}

impl ChunkView {
    /// Each bit section has exactly the bytes its bit count calls for.
    pub open spec fn sized(self) -> bool {
        &&& self.input_bits.len() == bytes_for(self.input_count as int)
        &&& self.output_bits.len() == bytes_for(self.output_count as int)
        &&& self.internal_bits.len() == bytes_for(self.internal_count as int)
    }

    /// The defect of connection `i`, if it has one.
    pub open spec fn defect(self, i: int) -> Option<Error> {
        connection_defect(
            self.connections[i],
            self.input_count,
            self.output_count,
            self.internal_count,
        )
    }

    /// Every connection is valid.
    pub open spec fn connected(self) -> bool {
        forall|i: int| 0 <= i < self.connections.len() ==> (#[trigger] self.defect(i)) is None
    }

    /// The chunk invariant: sized bit sections and valid connections.
    pub open spec fn well_formed(self) -> bool {
        self.sized() && self.connected()
    }

    /// Connection `i` aims at a bit that exists.
    pub open spec fn aims_inside(self, i: int) -> bool {
        let c = self.connections[i];
        match c.to_section {
            Section::Input => c.to_index < self.input_count,
            Section::Internal => c.to_index < self.internal_count,
            Section::Output => c.to_index < self.output_count,
        }
    }

    /// Connection `i` leaves an input or an internal bit that exists.
    pub open spec fn leaves_inside(self, i: int) -> bool {
        let c = self.connections[i];
        match c.from_section {
            Section::Input => c.from_index < self.input_count,
            Section::Internal => c.from_index < self.internal_count,
            Section::Output => false,
        }
    }

    /// Every connection leaves an input or an internal bit that exists
    /// and aims at an internal or an output bit that exists. Every
    /// validated chunk is wired; a wired chunk may also have connections
    /// from an input straight to an output.
    pub open spec fn wired(self) -> bool {
        forall|i: int|
            0 <= i < self.connections.len() ==> self.leaves_inside(i) && (
            #[trigger] self.connections[i]).to_section != Section::Input && self.aims_inside(i)
    }

    /// What a run needs of a chunk: sized bit sections, and every
    /// connection that aims at an internal or an output bit aims at one
    /// that exists. Every well-formed chunk is runnable.
    pub open spec fn runnable(self) -> bool {
        &&& self.sized()
        &&& forall|i: int|
            0 <= i < self.connections.len() ==> (#[trigger] self.connections[i]).to_section
                == Section::Input || self.aims_inside(i)
    }
}

/// A well-formed chunk is runnable, and its connections are wired.
pub proof fn lemma_well_formed_runnable(c: ChunkView)
    requires
        c.well_formed(),
    ensures
        c.runnable(),
        c.wired(),
{
    assert forall|i: int| 0 <= i < c.connections.len() implies c.leaves_inside(i) && (
    #[trigger] c.connections[i]).to_section != Section::Input && c.aims_inside(i) by {
        assert(c.defect(i) is None);
    }
    assert forall|i: int| 0 <= i < c.connections.len() implies (#[trigger] c.connections[i]).to_section
        == Section::Input || c.aims_inside(i) by {
        assert(c.defect(i) is None);
    }
}

/// The defect of the first invalid connection from `i` on, if there is
/// one.
pub open spec fn defect_from(c: ChunkView, i: int) -> Option<Error>
    decreases c.connections.len() - i,
{
    if i < 0 || i >= c.connections.len() {
        None
    } else {
        match c.defect(i) {
            Some(e) => Some(e),
            None => defect_from(c, i + 1),
        }
    }
}

/// The defect of the first invalid connection of `c`, if there is one.
pub open spec fn first_defect(c: ChunkView) -> Option<Error> {
    defect_from(c, 0)
}

/// Checks every connection of `chunk`, in table order, and reports the
/// defect of the first invalid one.
pub fn validate_chunk(chunk: &MycosChunk) -> (r: Result<(), Error>)
    ensures
        r is Ok <==> chunk@.connected(),
        r is Err ==> exists|i: int|
            0 <= i < chunk@.connections.len() && chunk@.defect(i) == Some(r->Err_0)
                && forall|j: int| 0 <= j < i ==> (#[trigger] chunk@.defect(j)) is None,
        r == (match first_defect(chunk@) {
            Some(e) => Err::<(), Error>(e),
            None => Ok::<(), Error>(()),
        }),
{
    let n: usize = chunk.connections.len();
    let mut i: usize = 0;
    while i < n
        invariant
            i <= n,
            n == chunk@.connections.len(),
            forall|j: int| 0 <= j < i ==> (#[trigger] chunk@.defect(j)) is None,
            first_defect(chunk@) == defect_from(chunk@, i as int),
        decreases n - i,
    {
        let conn: Connection = chunk.connections[i];
        match check_connection(
            conn,
            chunk.input_count,
            chunk.output_count,
            chunk.internal_count,
        ) {
            Some(e) => {
                assert(chunk@.defect(i as int) == Some(e));
                return Err(e);
            },
            None => {
                assert(chunk@.defect(i as int) is None);
            },
        }
        i = i + 1;
    }
    Ok(())
}

/// Computes [`connection_defect`].
pub fn check_connection(conn: Connection, ni: u32, no: u32, nn: u32) -> (r: Option<Error>)
    ensures
        r == connection_defect(conn, ni, no, nn),
{
    match (conn.from_section, conn.to_section) {
        (Section::Input, Section::Internal)
        | (Section::Internal, Section::Internal)
        | (Section::Internal, Section::Output) => {},
        _ => {
            return Some(
                Error::InvalidConnectionEdge { from: conn.from_section, to: conn.to_section },
            );
        },
    }
    match conn.from_section {
        Section::Input => {
            if conn.from_index >= ni {
                return Some(
                    Error::FromIndexOutOfRange {
                        section: conn.from_section,
                        index: conn.from_index,
                    },
                );
            }
        },
        Section::Internal => {
            if conn.from_index >= nn {
                return Some(
                    Error::FromIndexOutOfRange {
                        section: conn.from_section,
                        index: conn.from_index,
                    },
                );
            }
        },
        Section::Output => {},
    }
    match conn.to_section {
        Section::Internal => {
            if conn.to_index >= nn {
                return Some(
                    Error::ToIndexOutOfRange { section: conn.to_section, index: conn.to_index },
                );
            }
        },
        Section::Output => {
            if conn.to_index >= no {
                return Some(
                    Error::ToIndexOutOfRange { section: conn.to_section, index: conn.to_index },
                );
            }
        },
        Section::Input => {},
    }
    None
}


/// The eight magic bytes that open every encoded chunk: `MYCOSCH0`.
pub open spec fn magic() -> Seq<u8> {
    seq![0x4Du8, 0x59u8, 0x43u8, 0x4Fu8, 0x53u8, 0x43u8, 0x48u8, 0x30u8]
}

/// The 16 bytes of one connection record.
pub open spec fn encode_connection(c: Connection) -> Seq<u8> {
    seq![c.from_section.tag(), c.to_section.tag(), c.trigger.tag(), c.action.tag()] + u32_le(
        c.from_index,
    ) + u32_le(c.to_index) + u32_le(c.order_tag)
}

/// The connection stored in the first 16 bytes of `r`. The four tag
/// bytes are checked in wire order; the first bad one is reported.
pub open spec fn decode_connection(r: Seq<u8>) -> Result<Connection, Error> {
    match Section::decode(r[0]) {
        Err(e) => Err(e),
        Ok(from_section) => match Section::decode(r[1]) {
            Err(e) => Err(e),
            Ok(to_section) => match Trigger::decode(r[2]) {
                Err(e) => Err(e),
                Ok(trigger) => match Action::decode(r[3]) {
                    Err(e) => Err(e),
                    Ok(action) => Ok(
                        Connection {
                            from_section,
                            to_section,
                            trigger,
                            action,
                            from_index: le_u32(r.skip(4)),
                            to_index: le_u32(r.skip(8)),
                            order_tag: le_u32(r.skip(12)),
                        },
                    ),
                },
            },
        },
    }
}

/// Puts the already decoded items `head` in front of what `tail` yields.
pub open spec fn prepend<T>(head: Seq<T>, tail: Result<Seq<T>, Error>) -> Result<Seq<T>, Error> {
    match tail {
        Err(e) => Err(e),
        Ok(rest) => Ok(head + rest),
    }
}

/// The table of `count` connection records at the front of `s`. Records
/// are read in order; the first one that is cut short or malformed
/// decides the error.
pub open spec fn decode_connections(s: Seq<u8>, count: nat) -> Result<Seq<Connection>, Error>
    decreases count,
{
    if count == 0 {
        Ok(Seq::empty())
    } else if s.len() < 16 {
        Err(Error::UnexpectedEof)
    } else {
        match decode_connection(s) {
            Err(e) => Err(e),
            Ok(c) => prepend(seq![c], decode_connections(s.skip(16), (count - 1) as nat)),
        }
    }
}

/// The records of `conns`, one after the other.
pub open spec fn encode_connections(conns: Seq<Connection>) -> Seq<u8>
    decreases conns.len(),
{
    if conns.len() == 0 {
        Seq::empty()
    } else {
        encode_connection(conns[0]) + encode_connections(conns.skip(1))
    }
}

/// The optional fields carried by the tail of an encoded chunk.
pub struct Metadata {
    pub name: Option<Seq<char>>,
    pub note: Option<Seq<char>>,
    pub build_hash: Option<Seq<u8>>,
}

/// One type-length-value record: type, length, value, zero padding to a
/// multiple of four. The length field holds the low 16 bits of the
/// value's length.
pub open spec fn encode_tlv(t: u16, value: Seq<u8>) -> Seq<u8> {
    u16_le(t) + u16_le((value.len() % 0x1_0000) as u16) + value + zeros(pad4(value.len() as int))
}

/// Reads type-length-value records until `s` is used up. Type 1 sets
/// the name and type 2 the note (both must be UTF-8), type 3 the build
/// hash; other types are skipped. A later record of a type replaces an
/// earlier one.
pub open spec fn decode_tail(s: Seq<u8>, acc: Metadata) -> Result<Metadata, Error>
    decreases s.len(),
{
    if s.len() == 0 {
        Ok(acc)
    } else if s.len() < 4 {
        Err(Error::UnexpectedEof)
    } else {
        let t = le_u16(s);
        let len = le_u16(s.skip(2)) as int;
        let end = 4 + len + pad4(len);
        if s.len() < end {
            Err(Error::UnexpectedEof)
        } else {
            let value = s.subrange(4, 4 + len);
            let rest = s.skip(end);
            if t == 1 {
                if valid_utf8(value) {
                    decode_tail(rest, Metadata { name: Some(decode_utf8(value)), ..acc })
                } else {
                    Err(Error::InvalidUtf8)
                }
            } else if t == 2 {
                if valid_utf8(value) {
                    decode_tail(rest, Metadata { note: Some(decode_utf8(value)), ..acc })
                } else {
                    Err(Error::InvalidUtf8)
                }
            } else if t == 3 {
                decode_tail(rest, Metadata { build_hash: Some(value), ..acc })
            } else {
                decode_tail(rest, acc)
            }
        }
    }
}

/// What an encoded chunk decodes to: the magic and version are checked,
/// the counts read, the three bit sections cut out, then the connection
/// table and the tail decoded. The flags and the reserved word are
/// ignored.
pub open spec fn decode_chunk(b: Seq<u8>) -> Result<ChunkView, Error> {
    if b.len() < 32 {
        Err(Error::UnexpectedEof)
    } else if b.subrange(0, 8) != magic() {
        Err(Error::InvalidMagic)
    } else if le_u16(b.skip(8)) != 1 {
        Err(Error::UnsupportedVersion(le_u16(b.skip(8))))
    } else {
        let ni = le_u32(b.skip(12));
        let no = le_u32(b.skip(16));
        let nn = le_u32(b.skip(20));
        let count = le_u32(b.skip(24));
        let ib = bytes_for(ni as int);
        let ob = bytes_for(no as int);
        let nb = bytes_for(nn as int);
        let table = 32 + ib + ob + nb + pad4(ib + ob + nb);
        if b.len() < table {
            Err(Error::UnexpectedEof)
        } else {
            match decode_connections(b.skip(table), count as nat) {
                Err(e) => Err(e),
                Ok(connections) => match decode_tail(
                    b.skip(table + 16 * count),
                    Metadata { name: None, note: None, build_hash: None },
                ) {
                    Err(e) => Err(e),
                    Ok(m) => Ok(
                        ChunkView {
                            input_bits: b.subrange(32, 32 + ib),
                            output_bits: b.subrange(32 + ib, 32 + ib + ob),
                            internal_bits: b.subrange(32 + ib + ob, 32 + ib + ob + nb),
                            input_count: ni,
                            output_count: no,
                            internal_count: nn,
                            connections,
                            name: m.name,
                            note: m.note,
                            build_hash: m.build_hash,
                        },
                    ),
                },
            }
        }
    }
}

/// The 32 header bytes of `c`: magic, version 1, zero flags, the three
/// bit counts, the low 32 bits of the connection count, a zero word.
pub open spec fn encode_header(c: ChunkView) -> Seq<u8> {
    magic() + u16_le(1) + u16_le(0) + u32_le(c.input_count) + u32_le(c.output_count) + u32_le(
        c.internal_count,
    ) + u32_le((c.connections.len() % 0x1_0000_0000) as u32) + u32_le(0)
}

/// The tail of `c`: name, note and build hash, each if present.
pub open spec fn encode_tail(c: ChunkView) -> Seq<u8> {
    (match c.name {
        Some(n) => encode_tlv(1, encode_utf8(n)),
        None => Seq::empty(),
    }) + (match c.note {
        Some(n) => encode_tlv(2, encode_utf8(n)),
        None => Seq::empty(),
    }) + (match c.build_hash {
        Some(h) => encode_tlv(3, h),
        None => Seq::empty(),
    })
}

/// The bytes that encode `c`.
pub open spec fn encode_chunk_bytes(c: ChunkView) -> Seq<u8> {
    let bits = c.input_bits + c.output_bits + c.internal_bits;
    encode_header(c) + bits + zeros(pad4(bits.len() as int)) + encode_connections(c.connections)
        + encode_tail(c)
}

/// `String::from_utf8` of std: the string whose UTF-8 encoding is
/// `bytes`, or `None` when `bytes` is not valid UTF-8.
#[verifier::external_body]
fn string_from_utf8(bytes: Vec<u8>) -> (r: Option<String>)
    ensures
        r is Some <==> valid_utf8(bytes@),
        r is Some ==> r->Some_0@ == decode_utf8(bytes@),
{
    String::from_utf8(bytes).ok()
}

/// Reads a little-endian `u16` at the cursor and moves the cursor
/// behind it; fails, leaving the cursor, when fewer than two bytes are
/// left.
pub fn read_u16(bytes: &[u8], cursor: &mut usize) -> (r: Result<u16, Error>)
    ensures
        *old(cursor) + 2 <= bytes@.len() ==> r == Ok::<u16, Error>(
            le_u16(bytes@.skip(*old(cursor) as int)),
        ) && *final(cursor) == *old(cursor) + 2,
        *old(cursor) + 2 > bytes@.len() ==> r == Err::<u16, Error>(Error::UnexpectedEof)
            && *final(cursor) == *old(cursor),
{
    if *cursor > bytes.len() || bytes.len() - *cursor < 2 {
        return Err(Error::UnexpectedEof);
    }
    let v: u16 = get_u16(bytes, *cursor);
    *cursor = *cursor + 2;
    Ok(v)
}

/// Reads a little-endian `u32` at the cursor and moves the cursor
/// behind it; fails, leaving the cursor, when fewer than four bytes are
/// left.
pub fn read_u32(bytes: &[u8], cursor: &mut usize) -> (r: Result<u32, Error>)
    ensures
        *old(cursor) + 4 <= bytes@.len() ==> r == Ok::<u32, Error>(
            le_u32(bytes@.skip(*old(cursor) as int)),
        ) && *final(cursor) == *old(cursor) + 4,
        *old(cursor) + 4 > bytes@.len() ==> r == Err::<u32, Error>(Error::UnexpectedEof)
            && *final(cursor) == *old(cursor),
{
    if *cursor > bytes.len() || bytes.len() - *cursor < 4 {
        return Err(Error::UnexpectedEof);
    }
    let v: u32 = get_u32(bytes, *cursor);
    *cursor = *cursor + 4;
    Ok(v)
}

fn write_u16(out: &mut Vec<u8>, v: u16)
    ensures
        final(out)@ == old(out)@ + u16_le(v),
{
    put_u16(out, v);
}

fn write_u32(out: &mut Vec<u8>, v: u32)
    ensures
        final(out)@ == old(out)@ + u32_le(v),
{
    put_u32(out, v);
}

/// Whether `bytes` opens with the magic.
fn has_magic(bytes: &[u8]) -> (r: bool)
    requires
        bytes@.len() >= 8,
    ensures
        r == (bytes@.subrange(0, 8) == magic()),
{
    let r = bytes[0] == 0x4D && bytes[1] == 0x59 && bytes[2] == 0x43 && bytes[3] == 0x4F
        && bytes[4] == 0x53 && bytes[5] == 0x43 && bytes[6] == 0x48 && bytes[7] == 0x30;
    proof {
        let m = bytes@.subrange(0, 8);
        if r {
            assert(m =~= magic());
        } else {
            assert(m[0] == bytes@[0] && m[1] == bytes@[1] && m[2] == bytes@[2] && m[3] == bytes@[3]
                && m[4] == bytes@[4] && m[5] == bytes@[5] && m[6] == bytes@[6] && m[7]
                == bytes@[7]);
        }
    }
    r
}

/// Reads the connection record at `at`.
fn read_connection(bytes: &[u8], at: usize) -> (r: Result<Connection, Error>)
    requires
        at + 16 <= bytes@.len(),
    ensures
        r == decode_connection(bytes@.skip(at as int)),
{
    let ghost rec = bytes@.skip(at as int);
    let from_section = match Section::try_from(bytes[at]) {
        Ok(v) => v,
        Err(e) => { return Err(e); },
    };
    let to_section = match Section::try_from(bytes[at + 1]) {
        Ok(v) => v,
        Err(e) => { return Err(e); },
    };
    let trigger = match Trigger::try_from(bytes[at + 2]) {
        Ok(v) => v,
        Err(e) => { return Err(e); },
    };
    let action = match Action::try_from(bytes[at + 3]) {
        Ok(v) => v,
        Err(e) => { return Err(e); },
    };
    let from_index: u32 = get_u32(bytes, at + 4);
    let to_index: u32 = get_u32(bytes, at + 8);
    let order_tag: u32 = get_u32(bytes, at + 12);
    proof {
        assert(rec.skip(4) =~= bytes@.skip(at + 4));
        assert(rec.skip(8) =~= bytes@.skip(at + 8));
        assert(rec.skip(12) =~= bytes@.skip(at + 12));
    }
    Ok(Connection { from_section, to_section, trigger, action, from_index, to_index, order_tag })
}

/// Reads `count` connection records starting at byte `table`.
fn parse_connections(bytes: &[u8], table: usize, count: u32) -> (r: Result<Vec<Connection>, Error>)
    requires
        table <= bytes@.len(),
    ensures
        match r {
            Ok(v) => decode_connections(bytes@.skip(table as int), count as nat) == Ok::<
                Seq<Connection>,
                Error,
            >(v@) && table + 16 * count <= bytes@.len(),
            Err(e) => decode_connections(bytes@.skip(table as int), count as nat) == Err::<
                Seq<Connection>,
                Error,
            >(e),
        },
{
    let total_len: usize = bytes.len();
    let mut cursor: usize = table;
    let mut connections: Vec<Connection> = Vec::new();
    let mut i: u32 = 0;
    assert(Seq::<Connection>::empty() + Seq::<Connection>::empty() =~= Seq::<
        Connection,
    >::empty());
    while i < count
        invariant
            i <= count,
            total_len == bytes@.len(),
            table <= cursor <= total_len,
            cursor == table + 16 * i,
            connections@.len() == i,
            decode_connections(bytes@.skip(table as int), count as nat) == prepend(
                connections@,
                decode_connections(bytes@.skip(cursor as int), (count - i) as nat),
            ),
        decreases count - i,
    {
        let ghost here = bytes@.skip(cursor as int);
        if total_len - cursor < 16 {
            return Err(Error::UnexpectedEof);
        }
        let conn = match read_connection(bytes, cursor) {
            Ok(c) => c,
            Err(e) => { return Err(e); },
        };
        proof {
            assert(here.skip(16) =~= bytes@.skip(cursor + 16));
            let rest = decode_connections(bytes@.skip(cursor + 16), (count - i - 1) as nat);
            match rest {
                Ok(tail) => {
                    assert(connections@ + (seq![conn] + tail) =~= connections@.push(conn) + tail);
                },
                Err(e) => {},
            }
        }
        connections.push(conn);
        cursor = cursor + 16;
        i = i + 1;
    }
    proof {
        assert(connections@ + Seq::<Connection>::empty() =~= connections@);
    }
    Ok(connections)
}

/// The optional fields of a chunk, as read from its tail.
struct Tail {
    name: Option<String>,
    note: Option<String>,
    build_hash: Option<Vec<u8>>,
}

impl Tail {
    spec fn meta(self) -> Metadata {
        Metadata {
            name: text_view(self.name),
            note: text_view(self.note),
            build_hash: blob_view(self.build_hash),
        }
    }
}

/// Reads the type-length-value records from byte `start` to the end.
fn parse_tail(bytes: &[u8], start: usize) -> (r: Result<Tail, Error>)
    requires
        start <= bytes@.len(),
    ensures
        match r {
            Ok(t) => decode_tail(
                bytes@.skip(start as int),
                Metadata { name: None, note: None, build_hash: None },
            ) == Ok::<Metadata, Error>(t.meta()),
            Err(e) => decode_tail(
                bytes@.skip(start as int),
                Metadata { name: None, note: None, build_hash: None },
            ) == Err::<Metadata, Error>(e),
        },
{
    let total_len: usize = bytes.len();
    let mut cursor: usize = start;
    let mut tail = Tail { name: None, note: None, build_hash: None };
    while cursor < total_len
        invariant
            total_len == bytes@.len(),
            start <= cursor <= total_len,
            decode_tail(
                bytes@.skip(start as int),
                Metadata { name: None, note: None, build_hash: None },
            ) == decode_tail(bytes@.skip(cursor as int), tail.meta()),
        decreases total_len - cursor,
    {
        let ghost here = bytes@.skip(cursor as int);
        if total_len - cursor < 4 {
            return Err(Error::UnexpectedEof);
        }
        let t: u16 = get_u16(bytes, cursor);
        let len: usize = get_u16(bytes, cursor + 2) as usize;
        let pad: usize = (4 - (len % 4)) % 4;
        proof {
            assert(here.skip(2) =~= bytes@.skip(cursor + 2));
        }
        if total_len - cursor - 4 < len + pad {
            return Err(Error::UnexpectedEof);
        }
        let value = copy_range(bytes, cursor + 4, cursor + 4 + len);
        proof {
            assert(here.subrange(4, 4 + len) =~= value@);
            assert(here.skip(4 + len + pad) =~= bytes@.skip(cursor + 4 + len + pad));
        }
        cursor = cursor + 4 + len + pad;
        if t == 1 {
            match string_from_utf8(value) {
                Some(s) => { tail.name = Some(s); },
                None => { return Err(Error::InvalidUtf8); },
            }
        } else if t == 2 {
            match string_from_utf8(value) {
                Some(s) => { tail.note = Some(s); },
                None => { return Err(Error::InvalidUtf8); },
            }
        } else if t == 3 {
            tail.build_hash = Some(value);
        }
    }
    Ok(tail)
}

/// Decodes a chunk. Succeeds exactly on the byte strings that
/// [`decode_chunk`] accepts, and reports its error otherwise.
pub fn parse_chunk(bytes: &[u8]) -> (r: Result<MycosChunk, Error>)
    ensures
        match r {
            Ok(c) => decode_chunk(bytes@) == Ok::<ChunkView, Error>(c@),
            Err(e) => decode_chunk(bytes@) == Err::<ChunkView, Error>(e),
        },
{
    let total_len: usize = bytes.len();
    if total_len < 32 {
        return Err(Error::UnexpectedEof);
    }
    if !has_magic(bytes) {
        return Err(Error::InvalidMagic);
    }
    let version: u16 = get_u16(bytes, 8);
    if version != 1 {
        return Err(Error::UnsupportedVersion(version));
    }
    let input_count: u32 = get_u32(bytes, 12);
    let output_count: u32 = get_u32(bytes, 16);
    let internal_count: u32 = get_u32(bytes, 20);
    let connection_count: u32 = get_u32(bytes, 24);

    let input_bytes: usize = byte_len(input_count);
    let output_bytes: usize = byte_len(output_count);
    let internal_bytes: usize = byte_len(internal_count);
    let bits_total: usize = input_bytes + output_bytes + internal_bytes;
    let pad: usize = (4 - (bits_total % 4)) % 4;
    if total_len - 32 < bits_total || total_len - 32 - bits_total < pad {
        return Err(Error::UnexpectedEof);
    }
    let input_bits = copy_range(bytes, 32, 32 + input_bytes);
    let output_bits = copy_range(bytes, 32 + input_bytes, 32 + input_bytes + output_bytes);
    let internal_bits = copy_range(bytes, 32 + input_bytes + output_bytes, 32 + bits_total);
    let table: usize = 32 + bits_total + pad;
    let connections = match parse_connections(bytes, table, connection_count) {
        Ok(v) => v,
        Err(e) => { return Err(e); },
    };
    let tail = match parse_tail(bytes, table + 16 * (connection_count as usize)) {
        Ok(t) => t,
        Err(e) => { return Err(e); },
    };
    Ok(
        MycosChunk {
            input_bits,
            output_bits,
            internal_bits,
            input_count,
            output_count,
            internal_count,
            connections,
            name: tail.name,
            note: tail.note,
            build_hash: tail.build_hash,
        },
    )
}

/// Appends one type-length-value record.
fn encode_tlv_into(out: &mut Vec<u8>, t: u16, value: &[u8])
    ensures
        final(out)@ == old(out)@ + encode_tlv(t, value@),
{
    let n: usize = value.len();
    write_u16(out, t);
    write_u16(out, (n % 0x1_0000) as u16);
    put_bytes(out, value);
    let pad: usize = (4 - (n % 4)) % 4;
    put_zeros(out, pad);
    assert(out@ =~= old(out)@ + encode_tlv(t, value@));
}

/// Appending a connection appends its record.
pub proof fn lemma_encode_connections_push(conns: Seq<Connection>, c: Connection)
    ensures
        encode_connections(conns.push(c)) == encode_connections(conns) + encode_connection(c),
    decreases conns.len(),
{
    if conns.len() == 0 {
        assert(conns.push(c).skip(1) =~= Seq::<Connection>::empty());
        assert(encode_connections(conns.push(c).skip(1)) =~= Seq::<u8>::empty());
        assert(encode_connections(conns.push(c)) =~= encode_connection(c));
        assert(encode_connections(conns) + encode_connection(c) =~= encode_connection(c));
    } else {
        assert(conns.push(c).skip(1) =~= conns.skip(1).push(c));
        lemma_encode_connections_push(conns.skip(1), c);
        assert(encode_connections(conns.push(c)) =~= encode_connections(conns)
            + encode_connection(c));
    }
}

/// Appends the header of `chunk`.
fn encode_header_into(out: &mut Vec<u8>, chunk: &MycosChunk)
    requires
        old(out)@.len() == 0,
    ensures
        final(out)@ == encode_header(chunk@),
{
    out.push(0x4D);
    out.push(0x59);
    out.push(0x43);
    out.push(0x4F);
    out.push(0x53);
    out.push(0x43);
    out.push(0x48);
    out.push(0x30);
    assert(out@ =~= magic());
    write_u16(out, 1);
    write_u16(out, 0);
    write_u32(out, chunk.input_count);
    write_u32(out, chunk.output_count);
    write_u32(out, chunk.internal_count);
    let n: usize = chunk.connections.len();
    write_u32(out, (n as u64 % 0x1_0000_0000) as u32);
    write_u32(out, 0);
}

/// Padding after three runs of `a`, `b` and `c` bytes.
fn pad_of(a: usize, b: usize, c: usize) -> (pad: usize)
    ensures
        pad == pad4(a + b + c),
{
    let m: u128 = (a as u128 + b as u128 + c as u128) % 4;
    ((4 - m) % 4) as usize
}

/// Appends the three bit sections and their padding.
fn encode_bits_into(out: &mut Vec<u8>, chunk: &MycosChunk)
    ensures
        final(out)@ == old(out)@ + (chunk@.input_bits + chunk@.output_bits + chunk@.internal_bits)
            + zeros(
            pad4((chunk@.input_bits + chunk@.output_bits + chunk@.internal_bits).len() as int),
        ),
{
    put_bytes(out, chunk.input_bits.as_slice());
    put_bytes(out, chunk.output_bits.as_slice());
    put_bytes(out, chunk.internal_bits.as_slice());
    let ghost bits = chunk@.input_bits + chunk@.output_bits + chunk@.internal_bits;
    assert(out@ =~= old(out)@ + bits);
    let pad: usize = pad_of(
        chunk.input_bits.len(),
        chunk.output_bits.len(),
        chunk.internal_bits.len(),
    );
    put_zeros(out, pad);
}

/// Appends the connection table.
fn encode_connections_into(out: &mut Vec<u8>, conns: &Vec<Connection>)
    ensures
        final(out)@ == old(out)@ + encode_connections(conns@),
{
    let n: usize = conns.len();
    let mut i: usize = 0;
    assert(conns@.subrange(0, 0) =~= Seq::<Connection>::empty());
    assert(out@ + encode_connections(Seq::<Connection>::empty()) =~= out@);
    while i < n
        invariant
            i <= n,
            n == conns@.len(),
            out@ == old(out)@ + encode_connections(conns@.subrange(0, i as int)),
        decreases n - i,
    {
        let c: Connection = conns[i];
        let ghost before = out@;
        out.push(c.from_section.to_u8());
        out.push(c.to_section.to_u8());
        out.push(c.trigger.to_u8());
        out.push(c.action.to_u8());
        write_u32(out, c.from_index);
        write_u32(out, c.to_index);
        write_u32(out, c.order_tag);
        proof {
            assert(out@ =~= before + encode_connection(c));
            let done = conns@.subrange(0, i as int);
            lemma_encode_connections_push(done, c);
            assert(done.push(c) =~= conns@.subrange(0, i + 1));
            assert(out@ =~= old(out)@ + encode_connections(conns@.subrange(0, i + 1)));
        }
        i = i + 1;
    }
    assert(conns@.subrange(0, n as int) =~= conns@);
}

/// Appends the tail: name, note and build hash, each if present.
fn encode_tail_into(out: &mut Vec<u8>, chunk: &MycosChunk)
    ensures
        final(out)@ == old(out)@ + encode_tail(chunk@),
{
    match &chunk.name {
        Some(name) => {
            encode_tlv_into(out, 1, name.as_str().as_bytes());
        },
        None => {
            assert(out@ + Seq::<u8>::empty() =~= out@);
        },
    }
    match &chunk.note {
        Some(note) => {
            encode_tlv_into(out, 2, note.as_str().as_bytes());
        },
        None => {
            assert(out@ + Seq::<u8>::empty() =~= out@);
        },
    }
    match &chunk.build_hash {
        Some(hash) => {
            encode_tlv_into(out, 3, hash.as_slice());
        },
        None => {
            assert(out@ + Seq::<u8>::empty() =~= out@);
        },
    }
    assert(out@ =~= old(out)@ + encode_tail(chunk@));
}

/// Encodes a chunk as [`encode_chunk_bytes`] lays it out.
pub fn encode_chunk(chunk: &MycosChunk) -> (out: Vec<u8>)
    ensures
        out@ == encode_chunk_bytes(chunk@),
{
    let mut out: Vec<u8> = Vec::new();
    encode_header_into(&mut out, chunk);
    encode_bits_into(&mut out, chunk);
    encode_connections_into(&mut out, &chunk.connections);
    encode_tail_into(&mut out, chunk);
    out
}


impl ChunkView {
    /// The chunk can be written without loss: its bit sections are sized,
    /// the connection count fits the header's 32-bit field, and each
    /// optional field fits the 16-bit length of its record.
    pub open spec fn encodable(self) -> bool {
        &&& self.sized()
        &&& self.connections.len() <= 0xFFFF_FFFF
        &&& (self.name matches Some(n) ==> encode_utf8(n).len() <= 0xFFFF)
        &&& (self.note matches Some(n) ==> encode_utf8(n).len() <= 0xFFFF)
        &&& (self.build_hash matches Some(h) ==> h.len() <= 0xFFFF)
    }
}

/// A record decodes to the connection it encodes, whatever follows it.
pub proof fn lemma_connection_round_trip(c: Connection, rest: Seq<u8>)
    ensures
        encode_connection(c).len() == 16,
        decode_connection(encode_connection(c) + rest) == Ok::<Connection, Error>(c),
{
    let r = encode_connection(c) + rest;
    lemma_le_round_trip(0, c.from_index);
    lemma_le_round_trip(0, c.to_index);
    lemma_le_round_trip(0, c.order_tag);
    assert(r.skip(4).subrange(0, 4) =~= u32_le(c.from_index));
    assert(r.skip(8).subrange(0, 4) =~= u32_le(c.to_index));
    assert(r.skip(12).subrange(0, 4) =~= u32_le(c.order_tag));
    lemma_le_u32_prefix(r.skip(4));
    lemma_le_u32_prefix(r.skip(8));
    lemma_le_u32_prefix(r.skip(12));
}

/// Only the first four bytes count.
pub proof fn lemma_le_u32_prefix(s: Seq<u8>)
    requires
        s.len() >= 4,
    ensures
        le_u32(s) == le_u32(s.subrange(0, 4)),
{
}

/// Only the first two bytes count.
pub proof fn lemma_le_u16_prefix(s: Seq<u8>)
    requires
        s.len() >= 2,
    ensures
        le_u16(s) == le_u16(s.subrange(0, 2)),
{
}

/// A table decodes to the connections it encodes, whatever follows it.
pub proof fn lemma_connections_round_trip(conns: Seq<Connection>, rest: Seq<u8>)
    ensures
        encode_connections(conns).len() == 16 * conns.len(),
        decode_connections(encode_connections(conns) + rest, conns.len()) == Ok::<
            Seq<Connection>,
            Error,
        >(conns),
    decreases conns.len(),
{
    if conns.len() == 0 {
        assert(conns =~= Seq::<Connection>::empty());
    } else {
        let c = conns[0];
        let tail = conns.skip(1);
        let bytes = encode_connections(conns) + rest;
        let after = encode_connections(tail) + rest;
        lemma_connection_round_trip(c, after);
        lemma_connections_round_trip(tail, rest);
        assert(bytes =~= encode_connection(c) + after);
        assert(bytes.skip(16) =~= after);
        assert(seq![c] + tail =~= conns);
    }
}

/// What one record at the front of the tail does to the fields read so
/// far.
pub open spec fn tlv_effect(t: u16, value: Seq<u8>, acc: Metadata) -> Result<Metadata, Error> {
    if t == 1 {
        if valid_utf8(value) {
            Ok(Metadata { name: Some(decode_utf8(value)), ..acc })
        } else {
            Err(Error::InvalidUtf8)
        }
    } else if t == 2 {
        if valid_utf8(value) {
            Ok(Metadata { note: Some(decode_utf8(value)), ..acc })
        } else {
            Err(Error::InvalidUtf8)
        }
    } else if t == 3 {
        Ok(Metadata { build_hash: Some(value), ..acc })
    } else {
        Ok(acc)
    }
}

/// Decoding a tail that opens with an encoded record applies that
/// record and goes on with what follows.
pub proof fn lemma_tlv_step(t: u16, value: Seq<u8>, rest: Seq<u8>, acc: Metadata)
    requires
        value.len() <= 0xFFFF,
    ensures
        decode_tail(encode_tlv(t, value) + rest, acc) == match tlv_effect(t, value, acc) {
            Ok(next) => decode_tail(rest, next),
            Err(e) => Err(e),
        },
{
    let rec = encode_tlv(t, value);
    let s = rec + rest;
    let len = value.len() as int;
    lemma_le_round_trip(t, 0);
    lemma_le_round_trip(len as u16, 0);
    assert(rec.len() == 4 + len + pad4(len));
    assert(s.subrange(0, 2) =~= u16_le(t));
    assert(s.skip(2).subrange(0, 2) =~= u16_le(len as u16));
    lemma_le_u16_prefix(s);
    lemma_le_u16_prefix(s.skip(2));
    assert(le_u16(s) == t);
    assert(le_u16(s.skip(2)) == len);
    assert(s.subrange(4, 4 + len) =~= value);
    assert(s.skip(4 + len + pad4(len)) =~= rest);
}

/// A `u32` is read back from the four bytes that encode it.
pub proof fn lemma_u32_field(b: Seq<u8>, at: int, v: u32)
    requires
        0 <= at,
        at + 4 <= b.len(),
        b[at] == u32_le(v)[0],
        b[at + 1] == u32_le(v)[1],
        b[at + 2] == u32_le(v)[2],
        b[at + 3] == u32_le(v)[3],
    ensures
        le_u32(b.skip(at)) == v,
{
    lemma_le_round_trip(0, v);
    assert(b.skip(at).subrange(0, 4) =~= u32_le(v));
    lemma_le_u32_prefix(b.skip(at));
}

/// The bytes of an encoded header, field by field.
proof fn lemma_header_layout(c: ChunkView)
    ensures
        encode_header(c).len() == 32,
        encode_header(c).subrange(0, 8) == magic(),
        encode_header(c).subrange(8, 10) == u16_le(1),
        encode_header(c).subrange(12, 16) == u32_le(c.input_count),
        encode_header(c).subrange(16, 20) == u32_le(c.output_count),
        encode_header(c).subrange(20, 24) == u32_le(c.internal_count),
        encode_header(c).subrange(24, 28) == u32_le(
            (c.connections.len() % 0x1_0000_0000) as u32,
        ),
{
    let h = encode_header(c);
    assert(h.len() == 32);
    assert(h.subrange(0, 8) =~= magic());
    assert(h.subrange(8, 10) =~= u16_le(1));
    assert(h.subrange(12, 16) =~= u32_le(c.input_count));
    assert(h.subrange(16, 20) =~= u32_le(c.output_count));
    assert(h.subrange(20, 24) =~= u32_le(c.internal_count));
    assert(h.subrange(24, 28) =~= u32_le((c.connections.len() % 0x1_0000_0000) as u32));
}

/// The header fields are read back from an encoded header, whatever
/// follows it.
pub proof fn lemma_header_round_trip(c: ChunkView, rest: Seq<u8>)
    requires
        c.connections.len() <= 0xFFFF_FFFF,
    ensures
        encode_header(c).len() == 32,
        (encode_header(c) + rest).subrange(0, 8) == magic(),
        le_u16((encode_header(c) + rest).skip(8)) == 1,
        le_u32((encode_header(c) + rest).skip(12)) == c.input_count,
        le_u32((encode_header(c) + rest).skip(16)) == c.output_count,
        le_u32((encode_header(c) + rest).skip(20)) == c.internal_count,
        le_u32((encode_header(c) + rest).skip(24)) == c.connections.len(),
{
    let h = encode_header(c);
    let b = h + rest;
    let count = c.connections.len() as u32;
    lemma_header_layout(c);
    assert(b.subrange(0, 8) =~= h.subrange(0, 8));
    assert(b.skip(8).subrange(0, 2) =~= h.subrange(8, 10));
    lemma_le_round_trip(1, 0);
    lemma_le_u16_prefix(b.skip(8));
    assert(h.subrange(12, 16)[0] == b[12] && h.subrange(12, 16)[1] == b[13] && h.subrange(
        12,
        16,
    )[2] == b[14] && h.subrange(12, 16)[3] == b[15]);
    lemma_u32_field(b, 12, c.input_count);
    assert(h.subrange(16, 20)[0] == b[16] && h.subrange(16, 20)[1] == b[17] && h.subrange(
        16,
        20,
    )[2] == b[18] && h.subrange(16, 20)[3] == b[19]);
    lemma_u32_field(b, 16, c.output_count);
    assert(h.subrange(20, 24)[0] == b[20] && h.subrange(20, 24)[1] == b[21] && h.subrange(
        20,
        24,
    )[2] == b[22] && h.subrange(20, 24)[3] == b[23]);
    lemma_u32_field(b, 20, c.internal_count);
    assert(h.subrange(24, 28)[0] == b[24] && h.subrange(24, 28)[1] == b[25] && h.subrange(
        24,
        28,
    )[2] == b[26] && h.subrange(24, 28)[3] == b[27]);
    lemma_u32_field(b, 24, count);
}

/// Three runs of bytes and their padding are cut back out of a
/// concatenation.
pub proof fn lemma_sections_round_trip(
    head: Seq<u8>,
    x: Seq<u8>,
    y: Seq<u8>,
    z: Seq<u8>,
    rest: Seq<u8>,
)
    ensures
        ({
            let total = (x + y + z).len() as int;
            let h = head.len() as int;
            let b = head + ((x + y + z) + (zeros(pad4(total)) + rest));
            &&& b.subrange(h, h + x.len()) == x
            &&& b.subrange(h + x.len(), h + x.len() + y.len()) == y
            &&& b.subrange(h + x.len() + y.len(), h + total) == z
            &&& b.skip(h + total + pad4(total)) == rest
            &&& b.len() == h + total + pad4(total) + rest.len()
        }),
{
    let total = (x + y + z).len() as int;
    let h = head.len() as int;
    let b = head + ((x + y + z) + (zeros(pad4(total)) + rest));
    assert(b.subrange(h, h + x.len()) =~= x);
    assert(b.subrange(h + x.len(), h + x.len() + y.len()) =~= y);
    assert(b.subrange(h + x.len() + y.len(), h + total) =~= z);
    assert(b.skip(h + total + pad4(total)) =~= rest);
}

/// The parts of an encoded chunk, grouped from the right.
proof fn lemma_encoded_shape(c: ChunkView)
    ensures
        encode_chunk_bytes(c) == encode_header(c) + ((c.input_bits + c.output_bits
            + c.internal_bits) + (zeros(
            pad4((c.input_bits + c.output_bits + c.internal_bits).len() as int),
        ) + (encode_connections(c.connections) + encode_tail(c)))),
{
    let bits = c.input_bits + c.output_bits + c.internal_bits;
    assert(encode_chunk_bytes(c) =~= encode_header(c) + (bits + (zeros(pad4(bits.len() as int))
        + (encode_connections(c.connections) + encode_tail(c)))));
}

/// A byte string whose parts decode to the fields of `c` decodes to `c`.
proof fn lemma_decode_from_parts(b: Seq<u8>, c: ChunkView)
    requires
        b.len() >= 32,
        b.subrange(0, 8) == magic(),
        le_u16(b.skip(8)) == 1,
        le_u32(b.skip(12)) == c.input_count,
        le_u32(b.skip(16)) == c.output_count,
        le_u32(b.skip(20)) == c.internal_count,
        le_u32(b.skip(24)) == c.connections.len(),
        c.sized(),
        ({
            let ib = c.input_bits.len() as int;
            let ob = c.output_bits.len() as int;
            let nb = c.internal_bits.len() as int;
            let table = 32 + ib + ob + nb + pad4(ib + ob + nb);
            &&& b.len() >= table
            &&& b.subrange(32, 32 + ib) == c.input_bits
            &&& b.subrange(32 + ib, 32 + ib + ob) == c.output_bits
            &&& b.subrange(32 + ib + ob, 32 + ib + ob + nb) == c.internal_bits
            &&& decode_connections(b.skip(table), c.connections.len()) == Ok::<
                Seq<Connection>,
                Error,
            >(c.connections)
            &&& decode_tail(
                b.skip(table + 16 * c.connections.len()),
                Metadata { name: None, note: None, build_hash: None },
            ) == Ok::<Metadata, Error>(
                Metadata { name: c.name, note: c.note, build_hash: c.build_hash },
            )
        }),
    ensures
        decode_chunk(b) == Ok::<ChunkView, Error>(c),
{
}

/// What follows a table of `count` records starts `16 * count` bytes
/// after the table.
proof fn lemma_after_table(b: Seq<u8>, table: int, records: Seq<u8>, tail: Seq<u8>, count: int)
    requires
        0 <= table <= b.len(),
        0 <= count,
        records.len() == 16 * count,
        b.skip(table) == records + tail,
    ensures
        b.skip(table + 16 * count) == tail,
{
    assert(b.skip(table).len() == b.len() - table);
    assert((records + tail).len() == records.len() + tail.len());
    assert(b.skip(table).skip(16 * count) =~= b.skip(table + 16 * count));
    assert((records + tail).skip(16 * count) =~= tail);
}

/// A chunk that can be written without loss is read back unchanged.
#[verifier::spinoff_prover]
#[verifier::rlimit(60)]
pub proof fn lemma_codec_round_trip(c: ChunkView)
    requires
        c.encodable(),
    ensures
        decode_chunk(encode_chunk_bytes(c)) == Ok::<ChunkView, Error>(c),
{
    let header = encode_header(c);
    let bits = c.input_bits + c.output_bits + c.internal_bits;
    let pad = zeros(pad4(bits.len() as int));
    let records = encode_connections(c.connections);
    let tail = encode_tail(c);
    let count = c.connections.len() as int;
    let b = header + (bits + (pad + (records + tail)));
    lemma_encoded_shape(c);
    lemma_header_round_trip(c, bits + (pad + (records + tail)));
    lemma_sections_round_trip(header, c.input_bits, c.output_bits, c.internal_bits, records + tail);
    lemma_connections_round_trip(c.connections, tail);
    lemma_tail_round_trip(c);
    let table = 32 + bits.len() + pad4(bits.len() as int);
    lemma_after_table(b, table, records, tail, count);
    lemma_decode_from_parts(b, c);
}

/// The tail of an encodable chunk decodes to its optional fields.
pub proof fn lemma_tail_round_trip(c: ChunkView)
    requires
        c.encodable(),
    ensures
        decode_tail(encode_tail(c), Metadata { name: None, note: None, build_hash: None })
            == Ok::<Metadata, Error>(
            Metadata { name: c.name, note: c.note, build_hash: c.build_hash },
        ),
{
    let empty = Seq::<u8>::empty();
    let m0 = Metadata { name: None, note: None, build_hash: None };
    let m1 = Metadata { name: c.name, note: None, build_hash: None };
    let m2 = Metadata { name: c.name, note: c.note, build_hash: None };
    let m3 = Metadata { name: c.name, note: c.note, build_hash: c.build_hash };
    let e3 = match c.build_hash {
        Some(h) => encode_tlv(3, h),
        None => empty,
    };
    let e2 = match c.note {
        Some(n) => encode_tlv(2, encode_utf8(n)),
        None => empty,
    };
    let e1 = match c.name {
        Some(n) => encode_tlv(1, encode_utf8(n)),
        None => empty,
    };
    assert(decode_tail(e3, m2) == Ok::<Metadata, Error>(m3)) by {
        match c.build_hash {
            Some(h) => {
                lemma_tlv_step(3, h, empty, m2);
                assert(e3 + empty =~= e3);
            },
            None => {},
        }
    }
    assert(decode_tail(e2 + e3, m1) == Ok::<Metadata, Error>(m3)) by {
        match c.note {
            Some(n) => {
                encode_utf8_valid_utf8(n);
                encode_utf8_decode_utf8(n);
                lemma_tlv_step(2, encode_utf8(n), e3, m1);
            },
            None => {
                assert(e2 + e3 =~= e3);
            },
        }
    }
    assert(decode_tail(e1 + (e2 + e3), m0) == Ok::<Metadata, Error>(m3)) by {
        match c.name {
            Some(n) => {
                encode_utf8_valid_utf8(n);
                encode_utf8_decode_utf8(n);
                lemma_tlv_step(1, encode_utf8(n), e2 + e3, m0);
            },
            None => {
                assert(e1 + (e2 + e3) =~= e2 + e3);
            },
        }
    }
    assert(encode_tail(c) =~= e1 + (e2 + e3));
}


impl crate::order::Tagged for Connection {
    open spec fn source(&self) -> (int, int) {
        (self.from_section.tag() as int, self.from_index as int)
    }

    open spec fn tag(&self) -> u32 {
        self.order_tag
    }

    open spec fn retagged(&self, tag: u32) -> Connection {
        Connection { order_tag: tag, ..*self }
    }

    proof fn lemma_retagged(&self, tag: u32) {
    }

    fn precedes(&self, other: &Connection) -> (r: bool) {
        let a: u8 = self.from_section.to_u8();
        let b: u8 = other.from_section.to_u8();
        a < b || (a == b && (self.from_index < other.from_index || (self.from_index
            == other.from_index && self.order_tag <= other.order_tag)))
    }

    fn same_source(&self, other: &Connection) -> (r: bool) {
        self.from_section.to_u8() == other.from_section.to_u8() && self.from_index
            == other.from_index
    }

    fn order_tag(&self) -> (r: u32) {
        self.order_tag
    }

    fn with_tag(&self, tag: u32) -> (r: Connection) {
        Connection { order_tag: tag, ..*self }
    }
}

/// Brings the connections of `chunk` into canonical order: sorted by
/// source section, source index and order tag, with the tags made
/// strictly increasing within every source, starting from the smallest
/// tag there and counting up where tags tie. If a tag would run over,
/// the connections are sorted and the tags left as they are.
pub fn canonicalize_chunk(chunk: &mut MycosChunk)
    ensures
        final(chunk)@ == (ChunkView {
            connections: crate::order::canonical(old(chunk)@.connections),
            ..old(chunk)@
        }),
{
    crate::order::make_canonical(&mut chunk.connections);
}

} // verus!
