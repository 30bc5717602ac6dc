//! Wire format. Pure encoding, no I/O, so it can be tested without a socket.
//!
//! Every message is a 16-byte header followed by a payload. Requests and
//! responses share the header; a response echoes the request's opcode and id,
//! or comes back as `Error`.
//!
//! ```text
//! 0       4    5     6     7     8            12           16
//! | magic | ver | op  | flg | rsv | request_id | payload_len |
//! ```

use vstd::prelude::*;

use crate::block::{BlockHash, BlockLayout, DType};
use crate::bytes::{array_of, push_all, push_be, read_be};
use crate::text::Text;

verus! {

/// "KVT1". Present on every frame so a desynced stream fails loudly on the
/// next header rather than reading a length out of block payload bytes.
pub const MAGIC: u32 = 0x4B56_5431;

pub const VERSION: u8 = 1;

pub const HEADER_BYTES: usize = 16;

/// Caps on what a peer can make us allocate. A 4-byte length field otherwise
/// lets one bad frame ask for 4 GiB.
pub const MAX_PAYLOAD: usize = 67_108_864;

pub const MAX_BLOCKS_PER_REQUEST: usize = 256;

pub const HASH_BYTES: usize = 16;

/// Parent flag, parent hash, block count.
pub const PUT_PRELUDE: usize = 21;

/// Per block of a put: its name and its depth.
pub const PUT_PER_BLOCK: usize = 20;

/// How many blocks fit in one frame at a given block size.
pub open spec fn frame_capacity(block_bytes: nat) -> nat {
    let fit = ((MAX_PAYLOAD - PUT_PRELUDE) as nat) / (block_bytes + PUT_PER_BLOCK as nat);
    if fit < 1 {
        1
    } else if fit > MAX_BLOCKS_PER_REQUEST {
        MAX_BLOCKS_PER_REQUEST as nat
    } else {
        fit
    }
}

/// A full frame of blocks fits a payload, going either way; and unless the
/// count cap is what limits it, one more block would not fit a put.
pub proof fn lemma_frames_fit(block_bytes: nat)
    requires
        PUT_PRELUDE + PUT_PER_BLOCK + block_bytes <= MAX_PAYLOAD,
    ensures
        PUT_PRELUDE + frame_capacity(block_bytes) * (PUT_PER_BLOCK + block_bytes) <= MAX_PAYLOAD,
        4 + frame_capacity(block_bytes) * block_bytes <= MAX_PAYLOAD,
        frame_capacity(block_bytes) < MAX_BLOCKS_PER_REQUEST ==> PUT_PRELUDE + (frame_capacity(
            block_bytes,
        ) + 1) * (PUT_PER_BLOCK + block_bytes) > MAX_PAYLOAD,
{
    let room = (MAX_PAYLOAD - PUT_PRELUDE) as nat;
    let each = block_bytes + PUT_PER_BLOCK as nat;
    let fit = room / each;
    let capacity = frame_capacity(block_bytes);
    assert(fit >= 1 && fit * each <= room && (fit + 1) * each > room) by (nonlinear_arith)
        requires
            fit == room / each,
            0 < each <= room,
    ;
    assert(capacity * each <= fit * each) by (nonlinear_arith)
        requires
            capacity <= fit,
            0 < each,
    ;
    assert(capacity * block_bytes + capacity * PUT_PER_BLOCK == capacity * each)
        by (nonlinear_arith)
        requires
            each == block_bytes + PUT_PER_BLOCK,
    ;
}

/// How many blocks fit in one frame at a given block size.
///
/// The block cap alone is not enough: 256 blocks is 512 KiB of tiny blocks
/// but 512 MiB of Llama-3-8B blocks. Sized against `PutBlocks`, the heaviest
/// message, so the answer is safe for every opcode.
pub fn blocks_per_frame(block_bytes: usize) -> (blocks: usize)
    requires
        block_bytes + PUT_PER_BLOCK <= usize::MAX,
    ensures
        blocks == frame_capacity(block_bytes as nat),
{
    let fit: usize = (MAX_PAYLOAD - PUT_PRELUDE) / (block_bytes + PUT_PER_BLOCK);
    if fit < 1 {
        1
    } else if fit > MAX_BLOCKS_PER_REQUEST {
        MAX_BLOCKS_PER_REQUEST
    } else {
        fit
    }
}

#[derive(Clone, Copy, Debug, PartialEq, Eq, Structural)]
pub enum Opcode {
    /// Model id and block layout. A client must agree with these before its
    /// block names mean anything here.
    Info,
    /// Hashes in, count of resident leading blocks out.
    MatchPrefix,
    /// Hashes in, bytes for the resident leading run out.
    GetBlocks,
    /// Names and bytes in, admit counts out.
    PutBlocks,
    Stats,
    Error,
}

/// The byte that stands for an opcode.
pub open spec fn opcode_byte(opcode: Opcode) -> u8 {
    match opcode {
        Opcode::Info => 1,
        Opcode::MatchPrefix => 2,
        Opcode::GetBlocks => 3,
        Opcode::PutBlocks => 4,
        Opcode::Stats => 5,
        Opcode::Error => 0x7F,
    }
}

/// The opcode that a byte stands for.
pub open spec fn opcode_of(byte: u8) -> Option<Opcode> {
    if byte == 1 {
        Some(Opcode::Info)
    } else if byte == 2 {
        Some(Opcode::MatchPrefix)
    } else if byte == 3 {
        Some(Opcode::GetBlocks)
    } else if byte == 4 {
        Some(Opcode::PutBlocks)
    } else if byte == 5 {
        Some(Opcode::Stats)
    } else if byte == 0x7F {
        Some(Opcode::Error)
    } else {
        None
    }
}

impl Opcode {
    /// The byte that stands for it on the wire.
    pub fn code(self) -> (byte: u8)
        ensures
            byte == opcode_byte(self),
    {
        match self {
            Opcode::Info => 1,
            Opcode::MatchPrefix => 2,
            Opcode::GetBlocks => 3,
            Opcode::PutBlocks => 4,
            Opcode::Stats => 5,
            Opcode::Error => 0x7F,
        }
    }

    pub fn from_u8(value: u8) -> (opcode: Option<Self>)
        ensures
            opcode == opcode_of(value),
    {
        match value {
            1 => Some(Opcode::Info),
            2 => Some(Opcode::MatchPrefix),
            3 => Some(Opcode::GetBlocks),
            4 => Some(Opcode::PutBlocks),
            5 => Some(Opcode::Stats),
            0x7F => Some(Opcode::Error),
            _ => None,
        }
    }
}

#[derive(Clone, Copy, Debug, PartialEq, Eq, Structural)]
pub enum ProtoError {
    BadMagic(u32),
    BadVersion(u8),
    BadOpcode(u8),
    PayloadTooLarge(u32),
    TooManyBlocks(usize),
    /// Payload ended mid-field.
    Truncated,
    /// Payload had bytes left over, which means we disagree with the peer
    /// about the message's shape.
    TrailingBytes(usize),
    /// Peer's layout does not match ours, so its block names are meaningless.
    LayoutMismatch,
}

/// What an error says.
pub open spec fn error_text(error: ProtoError) -> Seq<char> {
    match error {
        ProtoError::BadMagic(got) => "bad magic 0x"@ + crate::text::hex(got as nat, 8),
        ProtoError::BadVersion(got) => "unsupported version "@ + crate::text::decimal(got as nat),
        ProtoError::BadOpcode(got) => "unknown opcode "@ + crate::text::decimal(got as nat),
        ProtoError::PayloadTooLarge(len) => "payload "@ + crate::text::decimal(len as nat)
            + " over cap "@ + crate::text::decimal(MAX_PAYLOAD as nat),
        ProtoError::TooManyBlocks(count) => crate::text::decimal(count as nat) + " blocks over cap "@
            + crate::text::decimal(MAX_BLOCKS_PER_REQUEST as nat),
        ProtoError::Truncated => "payload ended mid-field"@,
        ProtoError::TrailingBytes(count) => crate::text::decimal(count as nat)
            + " unread bytes after message"@,
        ProtoError::LayoutMismatch => "peer block layout does not match"@,
    }
}

impl ProtoError {
    /// What the error says.
    pub fn message(&self) -> (message: String)
        ensures
            message@ == error_text(*self),
    {
        let text = Text::new();
        let text = match *self {
            ProtoError::BadMagic(got) => text.push_text("bad magic 0x").push_hex(got as u64, 8),
            ProtoError::BadVersion(got) => text.push_text("unsupported version ").push_decimal(
                got as u64,
            ),
            ProtoError::BadOpcode(got) => text.push_text("unknown opcode ").push_decimal(
                got as u64,
            ),
            ProtoError::PayloadTooLarge(len) => text.push_text("payload ").push_decimal(
                len as u64,
            ).push_text(" over cap ").push_decimal(MAX_PAYLOAD as u64),
            ProtoError::TooManyBlocks(count) => text.push_decimal(count as u64).push_text(
                " blocks over cap ",
            ).push_decimal(MAX_BLOCKS_PER_REQUEST as u64),
            ProtoError::Truncated => text.push_text("payload ended mid-field"),
            ProtoError::TrailingBytes(count) => text.push_decimal(count as u64).push_text(
                " unread bytes after message",
            ),
            ProtoError::LayoutMismatch => text.push_text("peer block layout does not match"),
        };
        assert(text@ =~= error_text(*self));
        text.finish()
    }
}

#[derive(Clone, Copy, Debug, PartialEq, Eq, Structural)]
pub struct Header {
    pub opcode: Opcode,
    pub flags: u8,
    /// Echoed in the response, so a client can have many requests in flight.
    pub request_id: u32,
    pub payload_len: u32,
}

/// A header on the wire.
pub open spec fn header_bytes(header: Header) -> Seq<u8> {
    crate::bytes::be(MAGIC as nat, 4) + seq![
        VERSION,
        opcode_byte(header.opcode),
        header.flags,
        0u8,
    ] + crate::bytes::be(header.request_id as nat, 4) + crate::bytes::be(
        header.payload_len as nat,
        4,
    )
}

/// What sixteen bytes say as a header.
pub open spec fn header_of(bytes: Seq<u8>) -> Result<Header, ProtoError> {
    let magic = crate::bytes::be_value(bytes.subrange(0, 4)) as u32;
    let payload_len = crate::bytes::be_value(bytes.subrange(12, 16)) as u32;
    if magic != MAGIC {
        Err(ProtoError::BadMagic(magic))
    } else if bytes[4] != VERSION {
        Err(ProtoError::BadVersion(bytes[4]))
    } else if opcode_of(bytes[5]) is None {
        Err(ProtoError::BadOpcode(bytes[5]))
    } else if payload_len > MAX_PAYLOAD {
        Err(ProtoError::PayloadTooLarge(payload_len))
    } else {
        Ok(
            Header {
                opcode: opcode_of(bytes[5])->0,
                flags: bytes[6],
                request_id: crate::bytes::be_value(bytes.subrange(8, 12)) as u32,
                payload_len,
            },
        )
    }
}

/// A header reads back as it was written, so long as its payload is within
/// the cap; one that is over the cap is refused.
pub proof fn lemma_header_round_trip(header: Header)
    ensures
        header_bytes(header).len() == HEADER_BYTES,
        header_of(header_bytes(header)) == (if header.payload_len <= MAX_PAYLOAD {
            Ok::<Header, ProtoError>(header)
        } else {
            Err(ProtoError::PayloadTooLarge(header.payload_len))
        }),
{
    let bytes = header_bytes(header);
    crate::bytes::lemma_spans();
    crate::bytes::lemma_be_len(MAGIC as nat, 4);
    crate::bytes::lemma_be_len(header.request_id as nat, 4);
    crate::bytes::lemma_be_len(header.payload_len as nat, 4);
    crate::bytes::lemma_be_round_trip(MAGIC as nat, 4);
    crate::bytes::lemma_be_round_trip(header.request_id as nat, 4);
    crate::bytes::lemma_be_round_trip(header.payload_len as nat, 4);
    assert(bytes.subrange(0, 4) =~= crate::bytes::be(MAGIC as nat, 4));
    assert(bytes.subrange(8, 12) =~= crate::bytes::be(header.request_id as nat, 4));
    assert(bytes.subrange(12, 16) =~= crate::bytes::be(header.payload_len as nat, 4));
    assert(bytes[4] == VERSION);
    assert(bytes[5] == opcode_byte(header.opcode));
    assert(bytes[6] == header.flags);
}

impl Header {
    pub fn new(opcode: Opcode, request_id: u32, payload_len: usize) -> (header: Self)
        ensures
            header == (Header { opcode, flags: 0, request_id, payload_len: payload_len as u32 }),
    {
        Header { opcode, flags: 0, request_id, payload_len: payload_len as u32 }
    }

    pub fn encode(&self) -> (bytes: [u8; 16])
        ensures
            bytes@ == header_bytes(*self),
    {
        let mut out: Vec<u8> = Vec::with_capacity(HEADER_BYTES);
        push_be(&mut out, MAGIC as u128, 4);
        out.push(VERSION);
        out.push(self.opcode.code());
        out.push(self.flags);
        out.push(0);
        push_be(&mut out, self.request_id as u128, 4);
        push_be(&mut out, self.payload_len as u128, 4);
        proof {
            lemma_header_round_trip(*self);
            assert(out@ =~= header_bytes(*self));
        }
        array_of(out.as_slice())
    }

    pub fn decode(bytes: &[u8; 16]) -> (header: Result<Self, ProtoError>)
        ensures
            header == header_of(bytes@),
    {
        proof {
            crate::bytes::lemma_spans();
        }
        let magic: u32 = read_be(bytes, 0, 4) as u32;
        if magic != MAGIC {
            return Err(ProtoError::BadMagic(magic));
        }
        if bytes[4] != VERSION {
            return Err(ProtoError::BadVersion(bytes[4]));
        }
        let opcode: Opcode = match Opcode::from_u8(bytes[5]) {
            Some(opcode) => opcode,
            None => {
                return Err(ProtoError::BadOpcode(bytes[5]));
            },
        };
        let payload_len: u32 = read_be(bytes, 12, 4) as u32;
        if payload_len as usize > MAX_PAYLOAD {
            return Err(ProtoError::PayloadTooLarge(payload_len));
        }
        let request_id: u32 = read_be(bytes, 8, 4) as u32;
        Ok(Header { opcode, flags: bytes[6], request_id, payload_len })
    }
}

/// What the server is: which model and block shape its names refer to.
#[derive(Clone, Debug, PartialEq, Eq)]
pub struct ServerInfo {
    pub model_id: String,
    pub layout: BlockLayout,
}

/// Sequential reader over a payload. Every read is bounds-checked, so a
/// malformed frame returns `Truncated` instead of panicking the server.
pub struct Reader<'a> {
    bytes: &'a [u8],
    offset: usize,
}

/// What is left after `count` bytes.
pub open spec fn skip(bytes: Seq<u8>, count: nat) -> Seq<u8> {
    bytes.subrange(count as int, bytes.len() as int)
}

/// The first `count` bytes.
pub open spec fn head(bytes: Seq<u8>, count: nat) -> Seq<u8> {
    bytes.subrange(0, count as int)
}

/// The number in the first `count` bytes.
pub open spec fn number(bytes: Seq<u8>, count: nat) -> nat {
    crate::bytes::be_value(head(bytes, count))
}

/// A length-prefixed text at the front, and what follows it.
pub open spec fn string_of(bytes: Seq<u8>) -> Result<(Seq<char>, Seq<u8>), ProtoError> {
    let len = number(bytes, 2);
    if bytes.len() < 2 || bytes.len() < 2 + len || !vstd::utf8::valid_utf8(
        head(skip(bytes, 2), len),
    ) {
        Err(ProtoError::Truncated)
    } else {
        Ok((vstd::utf8::decode_utf8(head(skip(bytes, 2), len)), skip(bytes, 2 + len)))
    }
}

/// What is unread once a text has been asked for, whether or not it was one:
/// the length stays read where the text is cut off, and so does a text that is
/// not UTF-8.
pub open spec fn after_string(bytes: Seq<u8>) -> Seq<u8> {
    if bytes.len() < 2 {
        bytes
    } else if bytes.len() < 2 + number(bytes, 2) {
        skip(bytes, 2)
    } else {
        skip(bytes, 2 + number(bytes, 2))
    }
}

/// A block count at the front, and what follows it.
pub open spec fn block_count_of(bytes: Seq<u8>) -> Result<(nat, Seq<u8>), ProtoError> {
    if bytes.len() < 4 {
        Err(ProtoError::Truncated)
    } else if number(bytes, 4) > MAX_BLOCKS_PER_REQUEST {
        Err(ProtoError::TooManyBlocks(number(bytes, 4) as usize))
    } else {
        Ok((number(bytes, 4), skip(bytes, 4)))
    }
}

/// What is unread once a block count has been asked for: a count over the cap
/// stays read.
pub open spec fn after_block_count(bytes: Seq<u8>) -> Seq<u8> {
    if bytes.len() < 4 {
        bytes
    } else {
        skip(bytes, 4)
    }
}

/// `count` names, one after another.
pub open spec fn names_of(bytes: Seq<u8>, count: nat) -> Seq<BlockHash> {
    Seq::new(
        count,
        |i: int|
            BlockHash {
                name: crate::bytes::be_value(
                    bytes.subrange(i * HASH_BYTES, i * HASH_BYTES + HASH_BYTES),
                ) as u128,
            },
    )
}

/// A counted list of names at the front, and what follows it.
pub open spec fn hashes_of(bytes: Seq<u8>) -> Result<(Seq<BlockHash>, Seq<u8>), ProtoError> {
    match block_count_of(bytes) {
        Err(error) => Err(error),
        Ok((count, rest)) => if rest.len() < count * HASH_BYTES {
            Err(ProtoError::Truncated)
        } else {
            Ok((names_of(rest, count), skip(rest, count * HASH_BYTES as nat)))
        },
    }
}

/// What is unread once a counted list of names has been asked for: where the
/// list is cut off, the names before the cut stay read.
pub open spec fn after_hashes(bytes: Seq<u8>) -> Seq<u8> {
    match block_count_of(bytes) {
        Err(_) => after_block_count(bytes),
        Ok((count, rest)) => if rest.len() < count * HASH_BYTES {
            skip(rest, rest.len() / HASH_BYTES as nat * HASH_BYTES as nat)
        } else {
            skip(rest, count * HASH_BYTES as nat)
        },
    }
}

impl<'a> Reader<'a> {
    /// What has not been read yet.
    pub closed spec fn rest(&self) -> Seq<u8> {
        skip(self.bytes@, self.offset as nat)
    }

    #[verifier::type_invariant]
    spec fn wf(&self) -> bool {
        self.offset <= self.bytes@.len()
    }

    pub fn new(bytes: &'a [u8]) -> (reader: Self)
        ensures
            reader.rest() == bytes@,
    {
        let reader = Reader { bytes, offset: 0 };
        assert(reader.rest() =~= bytes@);
        reader
    }

    fn take(&mut self, count: usize) -> (slice: Result<&'a [u8], ProtoError>)
        ensures
            match slice {
                Ok(slice) => {
                    &&& old(self).rest().len() >= count
                    &&& slice@ == head(old(self).rest(), count as nat)
                    &&& final(self).rest() == skip(old(self).rest(), count as nat)
                },
                Err(error) => {
                    &&& old(self).rest().len() < count
                    &&& error == ProtoError::Truncated
                    &&& final(self).rest() == old(self).rest()
                },
            },
    {
        proof {
            use_type_invariant(&*self);
        }
        if self.bytes.len() - self.offset < count {
            return Err(ProtoError::Truncated);
        }
        let start: usize = self.offset;
        let slice = vstd::slice::slice_subrange(self.bytes, start, start + count);
        proof {
            assert(slice@ =~= head(old(self).rest(), count as nat));
            assert(skip(self.bytes@, (start + count) as nat) =~= skip(
                old(self).rest(),
                count as nat,
            ));
        }
        self.offset = start + count;
        Ok(slice)
    }

    /// Read `width` bytes as one number.
    fn number(&mut self, width: usize) -> (value: Result<u128, ProtoError>)
        requires
            width <= 16,
        ensures
            match value {
                Ok(value) => {
                    &&& old(self).rest().len() >= width
                    &&& value == number(old(self).rest(), width as nat)
                    &&& value < crate::bytes::span(width as nat)
                    &&& final(self).rest() == skip(old(self).rest(), width as nat)
                },
                Err(error) => {
                    &&& old(self).rest().len() < width
                    &&& error == ProtoError::Truncated
                    &&& final(self).rest() == old(self).rest()
                },
            },
    {
        match self.take(width) {
            Err(error) => Err(error),
            Ok(slice) => {
                assert(slice@.subrange(0, width as int) =~= slice@);
                Ok(read_be(slice, 0, width))
            },
        }
    }

    pub fn u8(&mut self) -> (value: Result<u8, ProtoError>)
        ensures
            match value {
                Ok(value) => {
                    &&& old(self).rest().len() >= 1
                    &&& value == old(self).rest()[0]
                    &&& final(self).rest() == skip(old(self).rest(), 1)
                },
                Err(error) => {
                    &&& old(self).rest().len() < 1
                    &&& error == ProtoError::Truncated
                    &&& final(self).rest() == old(self).rest()
                },
            },
    {
        match self.take(1) {
            Err(error) => Err(error),
            Ok(slice) => Ok(slice[0]),
        }
    }

    pub fn u16(&mut self) -> (value: Result<u16, ProtoError>)
        ensures
            match value {
                Ok(value) => {
                    &&& old(self).rest().len() >= 2
                    &&& value == number(old(self).rest(), 2)
                    &&& final(self).rest() == skip(old(self).rest(), 2)
                },
                Err(error) => {
                    &&& old(self).rest().len() < 2
                    &&& error == ProtoError::Truncated
                    &&& final(self).rest() == old(self).rest()
                },
            },
    {
        proof {
            crate::bytes::lemma_spans();
        }
        match self.number(2) {
            Err(error) => Err(error),
            Ok(value) => Ok(value as u16),
        }
    }

    pub fn u32(&mut self) -> (value: Result<u32, ProtoError>)
        ensures
            match value {
                Ok(value) => {
                    &&& old(self).rest().len() >= 4
                    &&& value == number(old(self).rest(), 4)
                    &&& final(self).rest() == skip(old(self).rest(), 4)
                },
                Err(error) => {
                    &&& old(self).rest().len() < 4
                    &&& error == ProtoError::Truncated
                    &&& final(self).rest() == old(self).rest()
                },
            },
    {
        proof {
            crate::bytes::lemma_spans();
        }
        match self.number(4) {
            Err(error) => Err(error),
            Ok(value) => Ok(value as u32),
        }
    }

    pub fn u64(&mut self) -> (value: Result<u64, ProtoError>)
        ensures
            match value {
                Ok(value) => {
                    &&& old(self).rest().len() >= 8
                    &&& value == number(old(self).rest(), 8)
                    &&& final(self).rest() == skip(old(self).rest(), 8)
                },
                Err(error) => {
                    &&& old(self).rest().len() < 8
                    &&& error == ProtoError::Truncated
                    &&& final(self).rest() == old(self).rest()
                },
            },
    {
        proof {
            crate::bytes::lemma_spans();
        }
        match self.number(8) {
            Err(error) => Err(error),
            Ok(value) => Ok(value as u64),
        }
    }

    pub fn hash(&mut self) -> (value: Result<BlockHash, ProtoError>)
        ensures
            match value {
                Ok(hash) => {
                    &&& old(self).rest().len() >= HASH_BYTES
                    &&& hash@ == number(old(self).rest(), HASH_BYTES as nat)
                    &&& final(self).rest() == skip(old(self).rest(), HASH_BYTES as nat)
                },
                Err(error) => {
                    &&& old(self).rest().len() < HASH_BYTES
                    &&& error == ProtoError::Truncated
                    &&& final(self).rest() == old(self).rest()
                },
            },
    {
        match self.number(HASH_BYTES) {
            Err(error) => Err(error),
            Ok(name) => Ok(BlockHash { name }),
        }
    }

    pub fn bytes(&mut self, count: usize) -> (slice: Result<&'a [u8], ProtoError>)
        ensures
            match slice {
                Ok(slice) => {
                    &&& old(self).rest().len() >= count
                    &&& slice@ == head(old(self).rest(), count as nat)
                    &&& final(self).rest() == skip(old(self).rest(), count as nat)
                },
                Err(error) => {
                    &&& old(self).rest().len() < count
                    &&& error == ProtoError::Truncated
                    &&& final(self).rest() == old(self).rest()
                },
            },
    {
        self.take(count)
    }

    pub fn string(&mut self) -> (text: Result<String, ProtoError>)
        ensures
            final(self).rest() == after_string(old(self).rest()),
            match text {
                Ok(text) => string_of(old(self).rest()) == Ok::<(Seq<char>, Seq<u8>), ProtoError>(
                    (text@, final(self).rest()),
                ),
                Err(error) => string_of(old(self).rest()) == Err::<
                    (Seq<char>, Seq<u8>),
                    ProtoError,
                >(error),
            },
    {
        let len: usize = match self.u16() {
            Err(error) => {
                return Err(error);
            },
            Ok(len) => len as usize,
        };
        let ghost after = self.rest();
        let slice = match self.take(len) {
            Err(error) => {
                return Err(error);
            },
            Ok(slice) => slice,
        };
        assert(skip(after, len as nat) =~= skip(old(self).rest(), (2 + len) as nat));
        match crate::text::text_of(vstd::slice::slice_to_vec(slice)) {
            Some(text) => Ok(text),
            None => Err(ProtoError::Truncated),
        }
    }

    /// A block count, rejected if it exceeds the per-request cap.
    pub fn block_count(&mut self) -> (count: Result<usize, ProtoError>)
        ensures
            final(self).rest() == after_block_count(old(self).rest()),
            match count {
                Ok(count) => block_count_of(old(self).rest()) == Ok::<(nat, Seq<u8>), ProtoError>(
                    (count as nat, final(self).rest()),
                ),
                Err(error) => block_count_of(old(self).rest()) == Err::<(nat, Seq<u8>), ProtoError>(
                    error,
                ),
            },
    {
        let count: usize = match self.u32() {
            Err(error) => {
                return Err(error);
            },
            Ok(count) => count as usize,
        };
        if count > MAX_BLOCKS_PER_REQUEST {
            return Err(ProtoError::TooManyBlocks(count));
        }
        Ok(count)
    }

    pub fn hashes(&mut self) -> (hashes: Result<Vec<BlockHash>, ProtoError>)
        ensures
            final(self).rest() == after_hashes(old(self).rest()),
            match hashes {
                Ok(hashes) => hashes_of(old(self).rest()) == Ok::<
                    (Seq<BlockHash>, Seq<u8>),
                    ProtoError,
                >((hashes@, final(self).rest())),
                Err(error) => hashes_of(old(self).rest()) == Err::<
                    (Seq<BlockHash>, Seq<u8>),
                    ProtoError,
                >(error),
            },
    {
        let count: usize = match self.block_count() {
            Err(error) => {
                return Err(error);
            },
            Ok(count) => count,
        };
        let ghost listed = self.rest();
        let mut hashes: Vec<BlockHash> = Vec::new();
        let mut i: usize = 0;
        proof {
            assert(skip(listed, 0) =~= listed);
        }
        while i < count
            invariant
                i <= count,
                block_count_of(old(self).rest()) == Ok::<(nat, Seq<u8>), ProtoError>(
                    (count as nat, listed),
                ),
                hashes@.len() == i,
                listed.len() >= i * HASH_BYTES,
                self.rest() == skip(listed, (i * HASH_BYTES) as nat),
                forall|k: int| 0 <= k < i ==> #[trigger] hashes@[k] == names_of(listed, i as nat)[k],
            decreases count - i,
        {
            let ghost before = self.rest();
            proof {
                assert(i * HASH_BYTES + HASH_BYTES <= count * HASH_BYTES) by (nonlinear_arith)
                    requires
                        i + 1 <= count,
                ;
            }
            match self.hash() {
                Err(error) => {
                    return Err(error);
                },
                Ok(hash) => {
                    proof {
                        let start = i * HASH_BYTES;
                        assert(head(before, HASH_BYTES as nat) =~= listed.subrange(
                            start,
                            start + HASH_BYTES,
                        ));
                        assert(skip(before, HASH_BYTES as nat) =~= skip(
                            listed,
                            (start + HASH_BYTES) as nat,
                        ));
                    }
                    hashes.push(hash);
                },
            }
            i = i + 1;
        }
        assert(hashes@ =~= names_of(listed, count as nat));
        Ok(hashes)
    }

    pub fn remaining(&self) -> (count: usize)
        ensures
            count == self.rest().len(),
    {
        proof {
            use_type_invariant(&*self);
        }
        self.bytes.len() - self.offset
    }

    /// Assert the message consumed its whole payload.
    pub fn finish(self) -> (done: Result<(), ProtoError>)
        ensures
            done == (if self.rest().len() == 0 {
                Ok::<(), ProtoError>(())
            } else {
                Err(ProtoError::TrailingBytes(self.rest().len() as usize))
            }),
    {
        let left: usize = self.remaining();
        if left == 0 {
            Ok(())
        } else {
            Err(ProtoError::TrailingBytes(left))
        }
    }
}

/// A text on the wire, with its length in front.
pub open spec fn string_bytes(text: Seq<char>) -> Seq<u8> {
    crate::bytes::be(vstd::utf8::encode_utf8(text).len() as u16 as nat, 2)
        + vstd::utf8::encode_utf8(text)
}

/// Names one after another.
pub open spec fn name_bytes(hashes: Seq<BlockHash>) -> Seq<u8>
    decreases hashes.len(),
{
    if hashes.len() == 0 {
        Seq::empty()
    } else {
        name_bytes(hashes.drop_last()) + crate::bytes::be(hashes.last()@ as nat, HASH_BYTES as nat)
    }
}

/// A counted list of names.
pub open spec fn hashes_bytes(hashes: Seq<BlockHash>) -> Seq<u8> {
    crate::bytes::be(hashes.len() as u32 as nat, 4) + name_bytes(hashes)
}

pub struct Writer {
    bytes: Vec<u8>,
}

impl View for Writer {
    type V = Seq<u8>;

    closed spec fn view(&self) -> Seq<u8> {
        self.bytes@
    }
}

impl Default for Writer {
    fn default() -> (writer: Self)
        ensures
            writer@ == Seq::<u8>::empty(),
    {
        Writer { bytes: Vec::new() }
    }
}

impl Writer {
    pub fn new() -> (writer: Self)
        ensures
            writer@ == Seq::<u8>::empty(),
    {
        Self::default()
    }

    pub fn u8(&mut self, value: u8) -> (same: &mut Self)
        ensures
            same@ == old(self)@ + crate::bytes::be(value as nat, 1),
            final(self)@ == final(same)@,
    {
        push_be(&mut self.bytes, value as u128, 1);
        self
    }

    pub fn u16(&mut self, value: u16) -> (same: &mut Self)
        ensures
            same@ == old(self)@ + crate::bytes::be(value as nat, 2),
            final(self)@ == final(same)@,
    {
        push_be(&mut self.bytes, value as u128, 2);
        self
    }

    pub fn u32(&mut self, value: u32) -> (same: &mut Self)
        ensures
            same@ == old(self)@ + crate::bytes::be(value as nat, 4),
            final(self)@ == final(same)@,
    {
        push_be(&mut self.bytes, value as u128, 4);
        self
    }

    pub fn u64(&mut self, value: u64) -> (same: &mut Self)
        ensures
            same@ == old(self)@ + crate::bytes::be(value as nat, 8),
            final(self)@ == final(same)@,
    {
        push_be(&mut self.bytes, value as u128, 8);
        self
    }

    pub fn hash(&mut self, hash: BlockHash) -> (same: &mut Self)
        ensures
            same@ == old(self)@ + crate::bytes::be(hash@ as nat, HASH_BYTES as nat),
            final(self)@ == final(same)@,
    {
        push_be(&mut self.bytes, hash.name, HASH_BYTES);
        self
    }

    pub fn bytes(&mut self, bytes: &[u8]) -> (same: &mut Self)
        ensures
            same@ == old(self)@ + bytes@,
            final(self)@ == final(same)@,
    {
        push_all(&mut self.bytes, bytes);
        self
    }

    pub fn string(&mut self, text: &str) -> (same: &mut Self)
        ensures
            same@ == old(self)@ + string_bytes(text@),
            final(self)@ == final(same)@,
    {
        let bytes = text.as_bytes();
        push_be(&mut self.bytes, bytes.len() as u16 as u128, 2);
        push_all(&mut self.bytes, bytes);
        assert(self@ =~= old(self)@ + string_bytes(text@));
        self
    }

    pub fn hashes(&mut self, hashes: &[BlockHash]) -> (same: &mut Self)
        ensures
            same@ == old(self)@ + hashes_bytes(hashes@),
            final(self)@ == final(same)@,
    {
        push_be(&mut self.bytes, hashes.len() as u32 as u128, 4);
        let ghost before = self@;
        let mut i: usize = 0;
        proof {
            assert(hashes@.take(0) =~= Seq::<BlockHash>::empty());
            assert(self@ =~= before + name_bytes(hashes@.take(0)));
        }
        while i < hashes.len()
            invariant
                i <= hashes@.len(),
                self@ == before + name_bytes(hashes@.take(i as int)),
            decreases hashes.len() - i,
        {
            push_be(&mut self.bytes, hashes[i].name, HASH_BYTES);
            i = i + 1;
            proof {
                let part = hashes@.take(i as int);
                assert(part.drop_last() =~= hashes@.take(i - 1));
                assert(self@ =~= before + name_bytes(part));
            }
        }
        proof {
            assert(hashes@.take(i as int) =~= hashes@);
            assert(self@ =~= old(self)@ + hashes_bytes(hashes@));
        }
        self
    }

    pub fn finish(self) -> (bytes: Vec<u8>)
        ensures
            bytes@ == self@,
    {
        self.bytes
    }
}

/// The byte that stands for an element type.
pub open spec fn dtype_byte(dtype: DType) -> u8 {
    match dtype {
        DType::F32 => 0,
        DType::F16 => 1,
        DType::BF16 => 2,
        DType::F8 => 3,
    }
}

/// The element type that a byte stands for.
pub open spec fn dtype_of(byte: u8) -> Option<DType> {
    if byte == 0 {
        Some(DType::F32)
    } else if byte == 1 {
        Some(DType::F16)
    } else if byte == 2 {
        Some(DType::BF16)
    } else if byte == 3 {
        Some(DType::F8)
    } else {
        None
    }
}

pub fn dtype_code(dtype: DType) -> (code: u8)
    ensures
        code == dtype_byte(dtype),
        dtype_of(code) == Some(dtype),
{
    match dtype {
        DType::F32 => 0,
        DType::F16 => 1,
        DType::BF16 => 2,
        DType::F8 => 3,
    }
}

pub fn dtype_from_code(code: u8) -> (dtype: Option<DType>)
    ensures
        dtype == dtype_of(code),
{
    match code {
        0 => Some(DType::F32),
        1 => Some(DType::F16),
        2 => Some(DType::BF16),
        3 => Some(DType::F8),
        _ => None,
    }
}

/// What a server says of itself, on the wire.
pub open spec fn info_bytes(model: Seq<char>, layout: BlockLayout) -> Seq<u8> {
    string_bytes(model) + crate::bytes::be(layout.tokens_per_block as u32 as nat, 4)
        + crate::bytes::be(layout.num_layers as u32 as nat, 4) + crate::bytes::be(
        layout.num_kv_heads as u32 as nat,
        4,
    ) + crate::bytes::be(layout.head_dim as u32 as nat, 4) + seq![dtype_byte(layout.dtype)]
}

/// What a payload says as a server's description of itself.
pub open spec fn info_of(bytes: Seq<u8>) -> Result<(Seq<char>, BlockLayout), ProtoError> {
    match string_of(bytes) {
        Err(error) => Err(error),
        Ok((model, rest)) => if rest.len() < 17 {
            Err(ProtoError::Truncated)
        } else if dtype_of(rest[16]) is None {
            Err(ProtoError::LayoutMismatch)
        } else if rest.len() > 17 {
            Err(ProtoError::TrailingBytes((rest.len() - 17) as usize))
        } else {
            Ok(
                (
                    model,
                    BlockLayout {
                        tokens_per_block: number(rest, 4) as usize,
                        num_layers: number(skip(rest, 4), 4) as usize,
                        num_kv_heads: number(skip(rest, 8), 4) as usize,
                        head_dim: number(skip(rest, 12), 4) as usize,
                        dtype: dtype_of(rest[16])->0,
                    },
                ),
            )
        },
    }
}

pub fn encode_info(info: &ServerInfo) -> (payload: Vec<u8>)
    ensures
        payload@ == info_bytes(info.model_id@, info.layout),
{
    let mut writer = Writer::new();
    writer.string(info.model_id.as_str());
    writer.u32(info.layout.tokens_per_block as u32);
    writer.u32(info.layout.num_layers as u32);
    writer.u32(info.layout.num_kv_heads as u32);
    writer.u32(info.layout.head_dim as u32);
    writer.u8(dtype_code(info.layout.dtype));
    proof {
        reveal_with_fuel(crate::bytes::be, 2);
        assert(crate::bytes::be(dtype_byte(info.layout.dtype) as nat, 1) =~= seq![
            dtype_byte(info.layout.dtype),
        ]);
        assert(writer@ =~= info_bytes(info.model_id@, info.layout));
    }
    writer.finish()
}

pub fn decode_info(payload: &[u8]) -> (info: Result<ServerInfo, ProtoError>)
    ensures
        match info {
            Ok(info) => info_of(payload@) == Ok::<(Seq<char>, BlockLayout), ProtoError>(
                (info.model_id@, info.layout),
            ),
            Err(error) => info_of(payload@) == Err::<(Seq<char>, BlockLayout), ProtoError>(error),
        },
{
    let mut reader = Reader::new(payload);
    let model_id: String = match reader.string() {
        Err(error) => {
            return Err(error);
        },
        Ok(text) => text,
    };
    let ghost rest = reader.rest();
    let tokens_per_block: u32 = match reader.u32() {
        Err(error) => {
            return Err(error);
        },
        Ok(value) => value,
    };
    let num_layers: u32 = match reader.u32() {
        Err(error) => {
            return Err(error);
        },
        Ok(value) => value,
    };
    proof {
        assert(skip(skip(rest, 4), 4) =~= skip(rest, 8));
    }
    let num_kv_heads: u32 = match reader.u32() {
        Err(error) => {
            return Err(error);
        },
        Ok(value) => value,
    };
    proof {
        assert(skip(skip(rest, 8), 4) =~= skip(rest, 12));
    }
    let head_dim: u32 = match reader.u32() {
        Err(error) => {
            return Err(error);
        },
        Ok(value) => value,
    };
    proof {
        assert(skip(skip(rest, 12), 4) =~= skip(rest, 16));
    }
    let code: u8 = match reader.u8() {
        Err(error) => {
            return Err(error);
        },
        Ok(value) => value,
    };
    let dtype: DType = match dtype_from_code(code) {
        None => {
            return Err(ProtoError::LayoutMismatch);
        },
        Some(dtype) => dtype,
    };
    match reader.finish() {
        Err(error) => Err(error),
        Ok(()) => Ok(
            ServerInfo {
                model_id,
                layout: BlockLayout {
                    tokens_per_block: tokens_per_block as usize,
                    num_layers: num_layers as usize,
                    num_kv_heads: num_kv_heads as usize,
                    head_dim: head_dim as usize,
                    dtype,
                },
            },
        ),
    }
}

/// A number at the front reads back, and leaves what follows it.
pub proof fn lemma_number_round_trip(value: nat, width: nat, tail: Seq<u8>)
    requires
        value < crate::bytes::span(width),
    ensures
        (crate::bytes::be(value, width) + tail).len() == width + tail.len(),
        number(crate::bytes::be(value, width) + tail, width) == value,
        skip(crate::bytes::be(value, width) + tail, width) == tail,
{
    let bytes = crate::bytes::be(value, width) + tail;
    crate::bytes::lemma_be_len(value, width);
    crate::bytes::lemma_be_round_trip(value, width);
    assert(head(bytes, width) =~= crate::bytes::be(value, width));
    assert(skip(bytes, width) =~= tail);
}

/// A text reads back as it was written, whatever follows it, so long as its
/// length fits the two bytes in front.
pub proof fn lemma_string_round_trip(text: Seq<char>, tail: Seq<u8>)
    requires
        vstd::utf8::encode_utf8(text).len() <= u16::MAX,
    ensures
        string_of(string_bytes(text) + tail) == Ok::<(Seq<char>, Seq<u8>), ProtoError>(
            (text, tail),
        ),
{
    let encoded = vstd::utf8::encode_utf8(text);
    let bytes = string_bytes(text) + tail;
    crate::bytes::lemma_spans();
    lemma_number_round_trip(encoded.len(), 2, encoded + tail);
    assert(bytes =~= crate::bytes::be(encoded.len(), 2) + (encoded + tail));
    assert(head(skip(bytes, 2), encoded.len()) =~= encoded);
    assert(skip(bytes, 2 + encoded.len()) =~= tail);
    vstd::utf8::encode_utf8_valid_utf8(text);
    vstd::utf8::encode_utf8_decode_utf8(text);
}

proof fn lemma_names_round_trip(hashes: Seq<BlockHash>, tail: Seq<u8>)
    ensures
        name_bytes(hashes).len() == hashes.len() * HASH_BYTES,
        names_of(name_bytes(hashes) + tail, hashes.len()) == hashes,
    decreases hashes.len(),
{
    let bytes = name_bytes(hashes) + tail;
    if hashes.len() > 0 {
        let before = hashes.drop_last();
        let last = crate::bytes::be(hashes.last()@ as nat, HASH_BYTES as nat);
        lemma_names_round_trip(before, last + tail);
        crate::bytes::lemma_be_len(hashes.last()@ as nat, HASH_BYTES as nat);
        crate::bytes::lemma_spans();
        crate::bytes::lemma_be_round_trip(hashes.last()@ as nat, HASH_BYTES as nat);
        assert(bytes =~= name_bytes(before) + (last + tail));
        let end = before.len() * HASH_BYTES;
        assert(bytes.subrange(end, end + HASH_BYTES) =~= last);
        assert forall|i: int| 0 <= i < hashes.len() implies names_of(bytes, hashes.len())[i]
            == hashes[i] by {
            if i < before.len() {
                assert(names_of(bytes, before.len())[i] == before[i]);
            }
        }
    }
    assert(names_of(bytes, hashes.len()) =~= hashes);
}

/// A list of names reads back as it was written, whatever follows it, so long
/// as it is within the cap.
pub proof fn lemma_hashes_round_trip(hashes: Seq<BlockHash>, tail: Seq<u8>)
    requires
        hashes.len() <= MAX_BLOCKS_PER_REQUEST,
    ensures
        hashes_of(hashes_bytes(hashes) + tail) == Ok::<(Seq<BlockHash>, Seq<u8>), ProtoError>(
            (hashes, tail),
        ),
{
    let listed = name_bytes(hashes) + tail;
    crate::bytes::lemma_spans();
    lemma_number_round_trip(hashes.len(), 4, listed);
    lemma_names_round_trip(hashes, tail);
    assert(hashes_bytes(hashes) + tail =~= crate::bytes::be(hashes.len(), 4) + listed);
    assert(skip(listed, hashes.len() * HASH_BYTES as nat) =~= tail);
}

/// A server's description of itself reads back as it was written, so long as
/// every part of it fits its field.
pub proof fn lemma_info_round_trip(model: Seq<char>, layout: BlockLayout)
    requires
        vstd::utf8::encode_utf8(model).len() <= u16::MAX,
        layout.tokens_per_block <= u32::MAX,
        layout.num_layers <= u32::MAX,
        layout.num_kv_heads <= u32::MAX,
        layout.head_dim <= u32::MAX,
    ensures
        info_of(info_bytes(model, layout)) == Ok::<(Seq<char>, BlockLayout), ProtoError>(
            (model, layout),
        ),
{
    let e = seq![dtype_byte(layout.dtype)];
    let d = crate::bytes::be(layout.head_dim as nat, 4) + e;
    let c = crate::bytes::be(layout.num_kv_heads as nat, 4) + d;
    let b = crate::bytes::be(layout.num_layers as nat, 4) + c;
    let a = crate::bytes::be(layout.tokens_per_block as nat, 4) + b;
    crate::bytes::lemma_spans();
    lemma_number_round_trip(layout.head_dim as nat, 4, e);
    lemma_number_round_trip(layout.num_kv_heads as nat, 4, d);
    lemma_number_round_trip(layout.num_layers as nat, 4, c);
    lemma_number_round_trip(layout.tokens_per_block as nat, 4, b);
    lemma_string_round_trip(model, a);
    assert(info_bytes(model, layout) =~= string_bytes(model) + a);
    assert(skip(a, 8) =~= skip(skip(a, 4), 4));
    assert(skip(a, 12) =~= skip(skip(skip(a, 4), 4), 4));
    assert(skip(a, 16) =~= skip(skip(skip(skip(a, 4), 4), 4), 4));
    assert(a[16] == skip(a, 16)[0]);
}

} // verus!
