//! What the two sides say to each other, as payloads: the bytes of each
//! message and what bytes say as one.

use vstd::prelude::*;

use crate::block::BlockHash;
use crate::proto::{Header, Opcode, ProtoError, Reader, Writer, HEADER_BYTES};
use crate::store::{AdmitReport, Stats};

verus! {

/// Header and payload, back to back.
pub open spec fn frame_bytes(opcode: Opcode, request_id: u32, payload: Seq<u8>) -> Seq<u8> {
    crate::proto::header_bytes(
        Header { opcode, flags: 0, request_id, payload_len: payload.len() as u32 },
    ) + payload
}

/// Header and payload in one piece, so a small message is one write and one
/// segment rather than two.
pub fn frame(opcode: Opcode, request_id: u32, payload: &[u8]) -> (bytes: Vec<u8>)
    ensures
        bytes@ == frame_bytes(opcode, request_id, payload@),
{
    let header = Header::new(opcode, request_id, payload.len()).encode();
    let mut bytes: Vec<u8> = Vec::new();
    crate::bytes::push_all(&mut bytes, &header);
    crate::bytes::push_all(&mut bytes, payload);
    assert(bytes@ =~= frame_bytes(opcode, request_id, payload@));
    bytes
}

/// What a payload says as a list of names and nothing else.
pub open spec fn hash_request_of(bytes: Seq<u8>) -> Result<Seq<BlockHash>, ProtoError> {
    match crate::proto::hashes_of(bytes) {
        Err(error) => Err(error),
        Ok((hashes, rest)) => if rest.len() > 0 {
            Err(ProtoError::TrailingBytes(rest.len() as usize))
        } else {
            Ok(hashes)
        },
    }
}

/// A list of names reads back as it was written, so long as it is within the
/// cap.
pub proof fn lemma_hash_request_round_trip(hashes: Seq<BlockHash>)
    requires
        hashes.len() <= crate::proto::MAX_BLOCKS_PER_REQUEST,
    ensures
        hash_request_of(crate::proto::hashes_bytes(hashes)) == Ok::<Seq<BlockHash>, ProtoError>(
            hashes,
        ),
{
    let bytes = crate::proto::hashes_bytes(hashes);
    crate::proto::lemma_hashes_round_trip(hashes, Seq::empty());
    assert(bytes + Seq::<u8>::empty() =~= bytes);
}

pub fn encode_hash_request(hashes: &[BlockHash]) -> (payload: Vec<u8>)
    ensures
        payload@ == crate::proto::hashes_bytes(hashes@),
{
    let mut writer = Writer::new();
    writer.hashes(hashes);
    assert(writer@ =~= crate::proto::hashes_bytes(hashes@));
    writer.finish()
}

pub fn read_hash_request(payload: &[u8]) -> (hashes: Result<Vec<BlockHash>, ProtoError>)
    ensures
        match hashes {
            Ok(hashes) => hash_request_of(payload@) == Ok::<Seq<BlockHash>, ProtoError>(hashes@),
            Err(error) => hash_request_of(payload@) == Err::<Seq<BlockHash>, ProtoError>(error),
        },
{
    let mut reader = Reader::new(payload);
    match reader.hashes() {
        Err(error) => Err(error),
        Ok(hashes) => match reader.finish() {
            Err(error) => Err(error),
            Ok(()) => Ok(hashes),
        },
    }
}

/// What a payload says as one count.
pub open spec fn count_of(bytes: Seq<u8>) -> Result<nat, ProtoError> {
    if bytes.len() < 4 {
        Err(ProtoError::Truncated)
    } else if bytes.len() > 4 {
        Err(ProtoError::TrailingBytes((bytes.len() - 4) as usize))
    } else {
        Ok(crate::proto::number(bytes, 4))
    }
}

/// How many blocks matched reads back as it was written.
pub proof fn lemma_count_round_trip(count: u32)
    ensures
        count_of(crate::bytes::be(count as nat, 4)) == Ok::<nat, ProtoError>(count as nat),
{
    let bytes = crate::bytes::be(count as nat, 4);
    crate::bytes::lemma_spans();
    crate::proto::lemma_number_round_trip(count as nat, 4, Seq::empty());
    assert(bytes + Seq::<u8>::empty() =~= bytes);
}

pub fn encode_match(matched: usize) -> (payload: Vec<u8>)
    ensures
        payload@ == crate::bytes::be(matched as u32 as nat, 4),
{
    let mut writer = Writer::new();
    writer.u32(matched as u32);
    assert(writer@ =~= crate::bytes::be(matched as u32 as nat, 4));
    writer.finish()
}

pub fn decode_match(payload: &[u8]) -> (matched: Result<usize, ProtoError>)
    ensures
        match matched {
            Ok(matched) => count_of(payload@) == Ok::<nat, ProtoError>(matched as nat),
            Err(error) => count_of(payload@) == Err::<nat, ProtoError>(error),
        },
{
    let mut reader = Reader::new(payload);
    match reader.u32() {
        Err(error) => Err(error),
        Ok(matched) => match reader.finish() {
            Err(error) => Err(error),
            Ok(()) => Ok(matched as usize),
        },
    }
}

/// Blocks one after another.
pub open spec fn joined(blocks: Seq<Seq<u8>>) -> Seq<u8>
    decreases blocks.len(),
{
    if blocks.len() == 0 {
        Seq::empty()
    } else {
        joined(blocks.drop_last()) + blocks.last()
    }
}

/// `count` blocks of `size` bytes each, one after another.
pub open spec fn blocks_of(bytes: Seq<u8>, count: nat, size: nat) -> Seq<Seq<u8>> {
    Seq::new(count, |i: int| bytes.subrange(i * size, i * size + size))
}

/// The bytes of a list of slices.
pub open spec fn contents_of(blocks: Seq<&[u8]>) -> Seq<Seq<u8>> {
    Seq::new(blocks.len(), |i: int| blocks[i]@)
}

proof fn lemma_blocks_round_trip(blocks: Seq<Seq<u8>>, size: nat)
    requires
        forall|i: int| 0 <= i < blocks.len() ==> (#[trigger] blocks[i]).len() == size,
    ensures
        joined(blocks).len() == blocks.len() * size,
        forall|tail: Seq<u8>| #[trigger]
            blocks_of(joined(blocks) + tail, blocks.len(), size) == blocks,
    decreases blocks.len(),
{
    if blocks.len() > 0 {
        let before = blocks.drop_last();
        lemma_blocks_round_trip(before, size);
        assert(blocks[blocks.len() - 1].len() == size);
        assert(blocks.len() * size == before.len() * size + size) by (nonlinear_arith)
            requires
                blocks.len() == before.len() + 1,
        ;
        assert forall|tail: Seq<u8>| #[trigger]
            blocks_of(joined(blocks) + tail, blocks.len(), size) == blocks by {
            let bytes = joined(blocks) + tail;
            let end: int = before.len() * size as int;
            assert(bytes =~= joined(before) + (blocks.last() + tail));
            assert(blocks_of(joined(before) + (blocks.last() + tail), before.len(), size)
                == before);
            assert(bytes.subrange(end, end + size) =~= blocks.last());
            assert forall|i: int| 0 <= i < blocks.len() implies blocks_of(
                bytes,
                blocks.len(),
                size,
            )[i] == blocks[i] by {
                if i < before.len() {
                    assert(blocks_of(bytes, before.len(), size)[i] == before[i]);
                }
            }
            assert(blocks_of(bytes, blocks.len(), size) =~= blocks);
        }
    } else {
        assert forall|tail: Seq<u8>| #[trigger]
            blocks_of(joined(blocks) + tail, blocks.len(), size) == blocks by {
            assert(blocks_of(joined(blocks) + tail, blocks.len(), size) =~= blocks);
        }
    }
}

/// The bytes of a run of blocks handed over.
pub open spec fn run_bytes(blocks: Seq<Seq<u8>>) -> Seq<u8> {
    crate::bytes::be(blocks.len() as u32 as nat, 4) + joined(blocks)
}

/// What a payload says as a run of blocks of `size` bytes.
pub open spec fn run_of(bytes: Seq<u8>, size: nat) -> Result<Seq<Seq<u8>>, ProtoError> {
    match crate::proto::block_count_of(bytes) {
        Err(error) => Err(error),
        Ok((count, rest)) => if rest.len() < count * size {
            Err(ProtoError::Truncated)
        } else if rest.len() > count * size {
            Err(ProtoError::TrailingBytes((rest.len() - count * size) as usize))
        } else {
            Ok(blocks_of(rest, count, size))
        },
    }
}

/// A run of blocks reads back as it was written, so long as it is within the
/// cap and the blocks are all of the size that the reader expects.
pub proof fn lemma_run_round_trip(blocks: Seq<Seq<u8>>, size: nat)
    requires
        blocks.len() <= crate::proto::MAX_BLOCKS_PER_REQUEST,
        forall|i: int| 0 <= i < blocks.len() ==> (#[trigger] blocks[i]).len() == size,
    ensures
        run_of(run_bytes(blocks), size) == Ok::<Seq<Seq<u8>>, ProtoError>(blocks),
{
    crate::bytes::lemma_spans();
    crate::proto::lemma_number_round_trip(blocks.len(), 4, joined(blocks));
    lemma_blocks_round_trip(blocks, size);
    assert(joined(blocks) + Seq::<u8>::empty() =~= joined(blocks));
    assert(blocks_of(joined(blocks) + Seq::<u8>::empty(), blocks.len(), size) == blocks);
}

/// What goes out ahead of the blocks themselves: the header of a reply of
/// `count` blocks, and the count. The blocks follow straight from memory.
pub fn run_prelude(request_id: u32, count: usize, block_bytes: usize) -> (bytes: Vec<u8>)
    requires
        4 + count * block_bytes <= usize::MAX,
    ensures
        bytes@ == crate::proto::header_bytes(
            Header {
                opcode: Opcode::GetBlocks,
                flags: 0,
                request_id,
                payload_len: (4 + count * block_bytes) as u32,
            },
        ) + crate::bytes::be(count as u32 as nat, 4),
{
    let header = Header::new(Opcode::GetBlocks, request_id, 4 + count * block_bytes).encode();
    let mut bytes: Vec<u8> = Vec::with_capacity(HEADER_BYTES + 4);
    crate::bytes::push_all(&mut bytes, &header);
    crate::bytes::push_be(&mut bytes, count as u32 as u128, 4);
    bytes
}

/// The prelude and the blocks make the frame of a run, so long as the count
/// and the length fit their fields.
pub proof fn lemma_run_frame(request_id: u32, blocks: Seq<Seq<u8>>, size: nat)
    requires
        forall|i: int| 0 <= i < blocks.len() ==> (#[trigger] blocks[i]).len() == size,
        4 + blocks.len() * size <= u32::MAX,
        blocks.len() <= u32::MAX,
    ensures
        crate::proto::header_bytes(
            Header {
                opcode: Opcode::GetBlocks,
                flags: 0,
                request_id,
                payload_len: (4 + blocks.len() * size) as u32,
            },
        ) + crate::bytes::be(blocks.len() as u32 as nat, 4) + joined(blocks) == frame_bytes(
            Opcode::GetBlocks,
            request_id,
            run_bytes(blocks),
        ),
{
    lemma_blocks_round_trip(blocks, size);
    crate::bytes::lemma_be_len(blocks.len() as u32 as nat, 4);
    let header = crate::proto::header_bytes(
        Header {
            opcode: Opcode::GetBlocks,
            flags: 0,
            request_id,
            payload_len: (4 + blocks.len() * size) as u32,
        },
    );
    let count = crate::bytes::be(blocks.len() as u32 as nat, 4);
    assert(header + count + joined(blocks) =~= header + (count + joined(blocks)));
}

/// Read `count` blocks of `size` bytes.
fn read_blocks<'a>(reader: &mut Reader<'a>, count: usize, size: usize) -> (blocks: Result<
    Vec<&'a [u8]>,
    ProtoError,
>)
    ensures
        match blocks {
            Ok(blocks) => {
                &&& old(reader).rest().len() >= count * size
                &&& contents_of(blocks@) == blocks_of(old(reader).rest(), count as nat, size as nat)
                &&& final(reader).rest() == crate::proto::skip(
                    old(reader).rest(),
                    (count * size) as nat,
                )
            },
            Err(error) => {
                &&& old(reader).rest().len() < count * size
                &&& error == ProtoError::Truncated
            },
        },
{
    let ghost all = reader.rest();
    let mut blocks: Vec<&'a [u8]> = Vec::new();
    let mut i: usize = 0;
    proof {
        assert(crate::proto::skip(all, 0) =~= all);
    }
    while i < count
        invariant
            i <= count,
            blocks@.len() == i,
            all == old(reader).rest(),
            all.len() >= i * size,
            reader.rest() == crate::proto::skip(all, (i * size) as nat),
            forall|k: int|
                0 <= k < i ==> (#[trigger] blocks@[k])@ == blocks_of(
                    all,
                    count as nat,
                    size as nat,
                )[k],
        decreases count - i,
    {
        let ghost before = reader.rest();
        proof {
            assert((i + 1) * size == i * size + size) by (nonlinear_arith);
            assert((i + 1) * size <= count * size) by (nonlinear_arith)
                requires
                    i + 1 <= count,
            ;
        }
        match reader.bytes(size) {
            Err(error) => {
                return Err(error);
            },
            Ok(block) => {
                proof {
                    let start = i * size;
                    assert(crate::proto::head(before, size as nat) =~= all.subrange(
                        start,
                        start + size,
                    ));
                    assert(crate::proto::skip(before, size as nat) =~= crate::proto::skip(
                        all,
                        (start + size) as nat,
                    ));
                }
                blocks.push(block);
            },
        }
        i = i + 1;
    }
    assert(contents_of(blocks@) =~= blocks_of(all, count as nat, size as nat));
    Ok(blocks)
}

/// The blocks of a run, as slices of the payload.
pub fn decode_run<'a>(payload: &'a [u8], block_bytes: usize) -> (blocks: Result<
    Vec<&'a [u8]>,
    ProtoError,
>)
    ensures
        match blocks {
            Ok(blocks) => run_of(payload@, block_bytes as nat) == Ok::<Seq<Seq<u8>>, ProtoError>(
                contents_of(blocks@),
            ),
            Err(error) => run_of(payload@, block_bytes as nat) == Err::<Seq<Seq<u8>>, ProtoError>(
                error,
            ),
        },
{
    let mut reader = Reader::new(payload);
    let count: usize = match reader.block_count() {
        Err(error) => {
            return Err(error);
        },
        Ok(count) => count,
    };
    match read_blocks(&mut reader, count, block_bytes) {
        Err(error) => Err(error),
        Ok(blocks) => match reader.finish() {
            Err(error) => Err(error),
            Ok(()) => Ok(blocks),
        },
    }
}

/// Names and depths, one after another.
pub open spec fn link_bytes(names: Seq<(BlockHash, u32)>) -> Seq<u8>
    decreases names.len(),
{
    if names.len() == 0 {
        Seq::empty()
    } else {
        link_bytes(names.drop_last()) + crate::bytes::be(names.last().0@ as nat, 16)
            + crate::bytes::be(names.last().1 as nat, 4)
    }
}

/// `count` names and depths, one after another.
pub open spec fn links_of(bytes: Seq<u8>, count: nat) -> Seq<(BlockHash, u32)> {
    Seq::new(
        count,
        |i: int|
            (
                BlockHash {
                    name: crate::bytes::be_value(bytes.subrange(i * 20, i * 20 + 16)) as u128,
                },
                crate::bytes::be_value(bytes.subrange(i * 20 + 16, i * 20 + 20)) as u32,
            ),
    )
}

proof fn lemma_links_round_trip(names: Seq<(BlockHash, u32)>, tail: Seq<u8>)
    ensures
        link_bytes(names).len() == names.len() * 20,
        links_of(link_bytes(names) + tail, names.len()) == names,
    decreases names.len(),
{
    let bytes = link_bytes(names) + tail;
    if names.len() > 0 {
        let before = names.drop_last();
        let name = crate::bytes::be(names.last().0@ as nat, 16);
        let depth = crate::bytes::be(names.last().1 as nat, 4);
        lemma_links_round_trip(before, name + depth + tail);
        crate::bytes::lemma_spans();
        crate::bytes::lemma_be_len(names.last().0@ as nat, 16);
        crate::bytes::lemma_be_len(names.last().1 as nat, 4);
        crate::bytes::lemma_be_round_trip(names.last().0@ as nat, 16);
        crate::bytes::lemma_be_round_trip(names.last().1 as nat, 4);
        assert(bytes =~= link_bytes(before) + (name + depth + tail));
        let end: int = before.len() * 20int;
        assert(bytes.subrange(end, end + 16) =~= name);
        assert(bytes.subrange(end + 16, end + 20) =~= depth);
        assert forall|i: int| 0 <= i < names.len() implies links_of(bytes, names.len())[i]
            == names[i] by {
            if i < before.len() {
                assert(links_of(bytes, before.len())[i] == before[i]);
            }
        }
    }
    assert(links_of(bytes, names.len()) =~= names);
}

/// What a peer offers: what the first block hangs below, the names and depths
/// of the blocks, and their bytes.
pub struct PutRequest<'a> {
    pub parent: Option<BlockHash>,
    pub names: Vec<(BlockHash, u32)>,
    pub blocks: Vec<&'a [u8]>,
}

/// The same, as values.
pub struct Offer {
    pub parent: Option<BlockHash>,
    pub names: Seq<(BlockHash, u32)>,
    pub blocks: Seq<Seq<u8>>,
}

impl<'a> View for PutRequest<'a> {
    type V = Offer;

    open spec fn view(&self) -> Offer {
        Offer { parent: self.parent, names: self.names@, blocks: contents_of(self.blocks@) }
    }
}

/// The parent of an offer, on the wire.
pub open spec fn parent_bytes(parent: Option<BlockHash>) -> Seq<u8> {
    match parent {
        None => seq![0u8],
        Some(parent) => seq![1u8] + crate::bytes::be(parent@ as nat, 16),
    }
}

/// An offer on the wire.
pub open spec fn put_bytes(offer: Offer) -> Seq<u8> {
    parent_bytes(offer.parent) + crate::bytes::be(offer.names.len() as u32 as nat, 4) + link_bytes(
        offer.names,
    ) + joined(offer.blocks)
}

/// The parent at the front of an offer, and what follows it.
pub open spec fn parent_of(bytes: Seq<u8>) -> Result<(Option<BlockHash>, Seq<u8>), ProtoError> {
    if bytes.len() < 1 {
        Err(ProtoError::Truncated)
    } else if bytes[0] == 0 {
        Ok((None, crate::proto::skip(bytes, 1)))
    } else if bytes.len() < 17 {
        Err(ProtoError::Truncated)
    } else {
        Ok(
            (
                Some(BlockHash { name: crate::bytes::be_value(bytes.subrange(1, 17)) as u128 }),
                crate::proto::skip(bytes, 17),
            ),
        )
    }
}

/// What a payload says as an offer of blocks of `size` bytes.
pub open spec fn put_of(bytes: Seq<u8>, size: nat) -> Result<Offer, ProtoError> {
    match parent_of(bytes) {
        Err(error) => Err(error),
        Ok((parent, after)) => match crate::proto::block_count_of(after) {
            Err(error) => Err(error),
            Ok((count, listed)) => {
                let rest = crate::proto::skip(listed, count * 20);
                if listed.len() < count * 20 || rest.len() < count * size {
                    Err(ProtoError::Truncated)
                } else if rest.len() > count * size {
                    Err(ProtoError::TrailingBytes((rest.len() - count * size) as usize))
                } else {
                    Ok(
                        Offer {
                            parent,
                            names: links_of(listed, count),
                            blocks: blocks_of(rest, count, size),
                        },
                    )
                }
            },
        },
    }
}

proof fn lemma_parent_round_trip(parent: Option<BlockHash>, after: Seq<u8>)
    ensures
        parent_of(parent_bytes(parent) + after) == Ok::<(Option<BlockHash>, Seq<u8>), ProtoError>(
            (parent, after),
        ),
{
    let bytes = parent_bytes(parent) + after;
    if let Some(parent) = parent {
        crate::bytes::lemma_spans();
        crate::bytes::lemma_be_len(parent@ as nat, 16);
        crate::bytes::lemma_be_round_trip(parent@ as nat, 16);
        assert(bytes.subrange(1, 17) =~= crate::bytes::be(parent@ as nat, 16));
        assert(crate::proto::skip(bytes, 17) =~= after);
    } else {
        assert(crate::proto::skip(bytes, 1) =~= after);
    }
}

/// An offer reads back as it was written, so long as it is within the cap,
/// has one name per block, and the blocks are all of the size that the reader
/// expects.
pub proof fn lemma_put_round_trip(offer: Offer, size: nat)
    requires
        offer.names.len() <= crate::proto::MAX_BLOCKS_PER_REQUEST,
        offer.blocks.len() == offer.names.len(),
        forall|i: int| 0 <= i < offer.blocks.len() ==> (#[trigger] offer.blocks[i]).len() == size,
    ensures
        put_of(put_bytes(offer), size) == Ok::<Offer, ProtoError>(offer),
{
    let bytes = put_bytes(offer);
    let count = offer.names.len();
    let rest = joined(offer.blocks);
    let listed = link_bytes(offer.names) + rest;
    let after = crate::bytes::be(count, 4) + listed;
    assert(parent_of(bytes) == Ok::<(Option<BlockHash>, Seq<u8>), ProtoError>(
        (offer.parent, after),
    )) by {
        assert(bytes =~= parent_bytes(offer.parent) + after);
        lemma_parent_round_trip(offer.parent, after);
    }
    assert(crate::proto::block_count_of(after) == Ok::<(nat, Seq<u8>), ProtoError>(
        (count, listed),
    )) by {
        crate::bytes::lemma_spans();
        crate::proto::lemma_number_round_trip(count, 4, listed);
    }
    assert(links_of(listed, count) == offer.names && crate::proto::skip(listed, count * 20) == rest
        && listed.len() == count * 20 + rest.len()) by {
        lemma_links_round_trip(offer.names, rest);
        assert(crate::proto::skip(listed, count * 20) =~= rest);
    }
    assert(blocks_of(rest, count, size) == offer.blocks && rest.len() == count * size) by {
        lemma_blocks_round_trip(offer.blocks, size);
        assert(rest + Seq::<u8>::empty() =~= rest);
        assert(blocks_of(rest + Seq::<u8>::empty(), count, size) == offer.blocks);
    }
}

pub fn encode_put(
    parent: Option<BlockHash>,
    names: &[(BlockHash, u32)],
    blocks: &[&[u8]],
) -> (payload: Vec<u8>)
    ensures
        payload@ == put_bytes(
            Offer { parent, names: names@, blocks: contents_of(blocks@) },
        ),
{
    let mut writer = Writer::new();
    match parent {
        Some(parent) => {
            writer.u8(1);
            writer.hash(parent);
        },
        None => {
            writer.u8(0);
        },
    }
    proof {
        reveal_with_fuel(crate::bytes::be, 2);
        assert(crate::bytes::be(0, 1) =~= seq![0u8]);
        assert(crate::bytes::be(1, 1) =~= seq![1u8]);
        assert(writer@ =~= parent_bytes(parent));
    }
    writer.u32(names.len() as u32);
    let ghost head = writer@;
    let mut i: usize = 0;
    proof {
        assert(names@.take(0) =~= Seq::<(BlockHash, u32)>::empty());
        assert(writer@ =~= head + link_bytes(names@.take(0)));
    }
    while i < names.len()
        invariant
            i <= names@.len(),
            writer@ == head + link_bytes(names@.take(i as int)),
        decreases names.len() - i,
    {
        let (hash, depth): (BlockHash, u32) = names[i];
        writer.hash(hash);
        writer.u32(depth);
        i = i + 1;
        proof {
            let part = names@.take(i as int);
            assert(part.drop_last() =~= names@.take(i - 1));
            assert(writer@ =~= head + link_bytes(part));
        }
    }
    assert(names@.take(i as int) =~= names@);
    let ghost listed = writer@;
    let ghost all = contents_of(blocks@);
    let mut k: usize = 0;
    proof {
        assert(all.take(0) =~= Seq::<Seq<u8>>::empty());
        assert(writer@ =~= listed + joined(all.take(0)));
    }
    while k < blocks.len()
        invariant
            k <= blocks@.len(),
            all == contents_of(blocks@),
            writer@ == listed + joined(all.take(k as int)),
        decreases blocks.len() - k,
    {
        writer.bytes(blocks[k]);
        k = k + 1;
        proof {
            let part = all.take(k as int);
            assert(part.drop_last() =~= all.take(k - 1));
            assert(writer@ =~= listed + joined(part));
        }
    }
    proof {
        assert(all.take(k as int) =~= all);
        assert(writer@ =~= put_bytes(
            Offer { parent, names: names@, blocks: contents_of(blocks@) },
        ));
    }
    writer.finish()
}

/// Read `count` names and depths.
fn read_links<'a>(reader: &mut Reader<'a>, count: usize) -> (names: Result<
    Vec<(BlockHash, u32)>,
    ProtoError,
>)
    ensures
        match names {
            Ok(names) => {
                &&& old(reader).rest().len() >= count * 20
                &&& names@ == links_of(old(reader).rest(), count as nat)
                &&& final(reader).rest() == crate::proto::skip(
                    old(reader).rest(),
                    (count * 20) as nat,
                )
            },
            Err(error) => {
                &&& old(reader).rest().len() < count * 20
                &&& error == ProtoError::Truncated
            },
        },
{
    let ghost all = reader.rest();
    let mut names: Vec<(BlockHash, u32)> = Vec::new();
    let mut i: usize = 0;
    proof {
        assert(crate::proto::skip(all, 0) =~= all);
    }
    while i < count
        invariant
            i <= count,
            names@.len() == i,
            all == old(reader).rest(),
            all.len() >= i * 20,
            reader.rest() == crate::proto::skip(all, (i * 20) as nat),
            forall|k: int|
                0 <= k < i ==> #[trigger] names@[k] == links_of(all, count as nat)[k],
        decreases count - i,
    {
        let ghost before = reader.rest();
        let ghost start = i * 20;
        let hash: BlockHash = match reader.hash() {
            Err(error) => {
                return Err(error);
            },
            Ok(hash) => hash,
        };
        let ghost after = reader.rest();
        proof {
            assert(crate::proto::head(before, 16) =~= all.subrange(start as int, start + 16));
            assert(after =~= crate::proto::skip(all, (start + 16) as nat));
        }
        let depth: u32 = match reader.u32() {
            Err(error) => {
                return Err(error);
            },
            Ok(depth) => depth,
        };
        proof {
            assert(crate::proto::head(after, 4) =~= all.subrange(start + 16, start + 20));
            assert(reader.rest() =~= crate::proto::skip(all, (start + 20) as nat));
        }
        names.push((hash, depth));
        i = i + 1;
    }
    assert(names@ =~= links_of(all, count as nat));
    Ok(names)
}

pub fn decode_put<'a>(payload: &'a [u8], block_bytes: usize) -> (request: Result<
    PutRequest<'a>,
    ProtoError,
>)
    ensures
        match request {
            Ok(request) => put_of(payload@, block_bytes as nat) == Ok::<Offer, ProtoError>(
                request@,
            ),
            Err(error) => put_of(payload@, block_bytes as nat) == Err::<Offer, ProtoError>(error),
        },
{
    let mut reader = Reader::new(payload);
    let flag: u8 = match reader.u8() {
        Err(error) => {
            return Err(error);
        },
        Ok(flag) => flag,
    };
    let mut parent: Option<BlockHash> = None;
    if flag != 0 {
        let ghost after = reader.rest();
        match reader.hash() {
            Err(error) => {
                return Err(error);
            },
            Ok(hash) => {
                proof {
                    assert(crate::proto::head(after, 16) =~= payload@.subrange(1, 17));
                    assert(reader.rest() =~= crate::proto::skip(payload@, 17));
                }
                parent = Some(hash);
            },
        }
    }
    let count: usize = match reader.block_count() {
        Err(error) => {
            return Err(error);
        },
        Ok(count) => count,
    };
    let names = match read_links(&mut reader, count) {
        Err(error) => {
            return Err(error);
        },
        Ok(names) => names,
    };
    let blocks = match read_blocks(&mut reader, count, block_bytes) {
        Err(error) => {
            return Err(error);
        },
        Ok(blocks) => blocks,
    };
    match reader.finish() {
        Err(error) => Err(error),
        Ok(()) => Ok(PutRequest { parent, names, blocks }),
    }
}

/// What admitting a chain came to, on the wire.
pub open spec fn report_bytes(report: AdmitReport) -> Seq<u8> {
    crate::bytes::be(report.inserted as u32 as nat, 4) + crate::bytes::be(
        report.deduped as u32 as nat,
        4,
    ) + crate::bytes::be(report.dropped as u32 as nat, 4)
}

/// What a payload says as such a report.
pub open spec fn report_of(bytes: Seq<u8>) -> Result<AdmitReport, ProtoError> {
    if bytes.len() < 12 {
        Err(ProtoError::Truncated)
    } else if bytes.len() > 12 {
        Err(ProtoError::TrailingBytes((bytes.len() - 12) as usize))
    } else {
        Ok(
            AdmitReport {
                inserted: crate::proto::number(bytes, 4) as usize,
                deduped: crate::proto::number(crate::proto::skip(bytes, 4), 4) as usize,
                dropped: crate::proto::number(crate::proto::skip(bytes, 8), 4) as usize,
            },
        )
    }
}

/// A report reads back as it was written, so long as its counts fit their
/// fields.
pub proof fn lemma_report_round_trip(report: AdmitReport)
    requires
        report.inserted <= u32::MAX,
        report.deduped <= u32::MAX,
        report.dropped <= u32::MAX,
    ensures
        report_of(report_bytes(report)) == Ok::<AdmitReport, ProtoError>(report),
{
    let c = crate::bytes::be(report.dropped as nat, 4);
    let b = crate::bytes::be(report.deduped as nat, 4) + c;
    let a = crate::bytes::be(report.inserted as nat, 4) + b;
    crate::bytes::lemma_spans();
    crate::proto::lemma_number_round_trip(report.dropped as nat, 4, Seq::empty());
    crate::proto::lemma_number_round_trip(report.deduped as nat, 4, c);
    crate::proto::lemma_number_round_trip(report.inserted as nat, 4, b);
    assert(c + Seq::<u8>::empty() =~= c);
    assert(report_bytes(report) =~= a);
    assert(crate::proto::skip(a, 8) =~= crate::proto::skip(crate::proto::skip(a, 4), 4));
}

pub fn encode_report(report: &AdmitReport) -> (payload: Vec<u8>)
    ensures
        payload@ == report_bytes(*report),
{
    let mut writer = Writer::new();
    writer.u32(report.inserted as u32);
    writer.u32(report.deduped as u32);
    writer.u32(report.dropped as u32);
    assert(writer@ =~= report_bytes(*report));
    writer.finish()
}

pub fn decode_report(payload: &[u8]) -> (report: Result<AdmitReport, ProtoError>)
    ensures
        report == report_of(payload@),
{
    let mut reader = Reader::new(payload);
    let inserted: u32 = match reader.u32() {
        Err(error) => {
            return Err(error);
        },
        Ok(value) => value,
    };
    let deduped: u32 = match reader.u32() {
        Err(error) => {
            return Err(error);
        },
        Ok(value) => value,
    };
    proof {
        assert(reader.rest() =~= crate::proto::skip(payload@, 8));
    }
    let dropped: u32 = match reader.u32() {
        Err(error) => {
            return Err(error);
        },
        Ok(value) => value,
    };
    match reader.finish() {
        Err(error) => Err(error),
        Ok(()) => Ok(
            AdmitReport {
                inserted: inserted as usize,
                deduped: deduped as usize,
                dropped: dropped as usize,
            },
        ),
    }
}

/// The counters of a store and how many blocks it holds, in wire order.
pub open spec fn counter_values(stats: Stats, resident: u64) -> Seq<u64> {
    seq![
        stats.lookups,
        stats.queried_blocks,
        stats.hit_blocks,
        stats.inserted_blocks,
        stats.deduped_blocks,
        stats.rejected_blocks,
        stats.evicted_blocks,
        stats.demoted_blocks,
        stats.blocking_demotions,
        stats.written_back,
        stats.promoted_blocks,
        stats.bytes_admitted,
        resident,
    ]
}

/// Counters one after another.
pub open spec fn counter_bytes(values: Seq<u64>) -> Seq<u8>
    decreases values.len(),
{
    if values.len() == 0 {
        Seq::empty()
    } else {
        counter_bytes(values.drop_last()) + crate::bytes::be(values.last() as nat, 8)
    }
}

/// `count` counters, one after another.
pub open spec fn counters_of(bytes: Seq<u8>, count: nat) -> Seq<u64> {
    Seq::new(
        count,
        |i: int| crate::bytes::be_value(bytes.subrange(i * 8, i * 8 + 8)) as u64,
    )
}

proof fn lemma_counters_round_trip(values: Seq<u64>, tail: Seq<u8>)
    ensures
        counter_bytes(values).len() == values.len() * 8,
        counters_of(counter_bytes(values) + tail, values.len()) == values,
    decreases values.len(),
{
    let bytes = counter_bytes(values) + tail;
    if values.len() > 0 {
        let before = values.drop_last();
        let last = crate::bytes::be(values.last() as nat, 8);
        lemma_counters_round_trip(before, last + tail);
        crate::bytes::lemma_spans();
        crate::bytes::lemma_be_len(values.last() as nat, 8);
        crate::bytes::lemma_be_round_trip(values.last() as nat, 8);
        assert(bytes =~= counter_bytes(before) + (last + tail));
        let end: int = before.len() * 8int;
        assert(bytes.subrange(end, end + 8) =~= last);
        assert forall|i: int| 0 <= i < values.len() implies counters_of(bytes, values.len())[i]
            == values[i] by {
            if i < before.len() {
                assert(counters_of(bytes, before.len())[i] == before[i]);
            }
        }
    }
    assert(counters_of(bytes, values.len()) =~= values);
}

/// What a payload says as the counters of a store.
pub open spec fn stats_of(bytes: Seq<u8>) -> Result<(Stats, u64), ProtoError> {
    let values = counters_of(bytes, 13);
    if bytes.len() < 104 {
        Err(ProtoError::Truncated)
    } else if bytes.len() > 104 {
        Err(ProtoError::TrailingBytes((bytes.len() - 104) as usize))
    } else {
        Ok(
            (
                Stats {
                    lookups: values[0],
                    queried_blocks: values[1],
                    hit_blocks: values[2],
                    inserted_blocks: values[3],
                    deduped_blocks: values[4],
                    rejected_blocks: values[5],
                    evicted_blocks: values[6],
                    demoted_blocks: values[7],
                    blocking_demotions: values[8],
                    written_back: values[9],
                    promoted_blocks: values[10],
                    bytes_admitted: values[11],
                },
                values[12],
            ),
        )
    }
}

/// The counters of a store read back as they were written.
pub proof fn lemma_stats_round_trip(stats: Stats, resident: u64)
    ensures
        stats_of(counter_bytes(counter_values(stats, resident))) == Ok::<(Stats, u64), ProtoError>(
            (stats, resident),
        ),
{
    let values = counter_values(stats, resident);
    let bytes = counter_bytes(values);
    lemma_counters_round_trip(values, Seq::empty());
    assert(bytes + Seq::<u8>::empty() =~= bytes);
}

fn write_counters(values: &[u64]) -> (payload: Vec<u8>)
    ensures
        payload@ == counter_bytes(values@),
{
    let mut writer = Writer::new();
    let mut i: usize = 0;
    proof {
        assert(values@.take(0) =~= Seq::<u64>::empty());
    }
    while i < values.len()
        invariant
            i <= values@.len(),
            writer@ == counter_bytes(values@.take(i as int)),
        decreases values.len() - i,
    {
        writer.u64(values[i]);
        i = i + 1;
        proof {
            assert(values@.take(i as int).drop_last() =~= values@.take(i - 1));
        }
    }
    assert(values@.take(i as int) =~= values@);
    writer.finish()
}

pub fn encode_stats(stats: &Stats, resident: usize) -> (payload: Vec<u8>)
    ensures
        payload@ == counter_bytes(counter_values(*stats, resident as u64)),
{
    let values: [u64; 13] = [
        stats.lookups,
        stats.queried_blocks,
        stats.hit_blocks,
        stats.inserted_blocks,
        stats.deduped_blocks,
        stats.rejected_blocks,
        stats.evicted_blocks,
        stats.demoted_blocks,
        stats.blocking_demotions,
        stats.written_back,
        stats.promoted_blocks,
        stats.bytes_admitted,
        resident as u64,
    ];
    assert(values@ =~= counter_values(*stats, resident as u64));
    write_counters(&values)
}

/// Read `count` counters.
fn read_counters<'a>(reader: &mut Reader<'a>, count: usize) -> (values: Result<
    Vec<u64>,
    ProtoError,
>)
    ensures
        match values {
            Ok(values) => {
                &&& old(reader).rest().len() >= count * 8
                &&& values@ == counters_of(old(reader).rest(), count as nat)
                &&& final(reader).rest() == crate::proto::skip(
                    old(reader).rest(),
                    (count * 8) as nat,
                )
            },
            Err(error) => {
                &&& old(reader).rest().len() < count * 8
                &&& error == ProtoError::Truncated
            },
        },
{
    let ghost all = reader.rest();
    let mut values: Vec<u64> = Vec::new();
    let mut i: usize = 0;
    proof {
        assert(crate::proto::skip(all, 0) =~= all);
    }
    while i < count
        invariant
            i <= count,
            values@.len() == i,
            all == old(reader).rest(),
            all.len() >= i * 8,
            reader.rest() == crate::proto::skip(all, (i * 8) as nat),
            forall|k: int|
                0 <= k < i ==> #[trigger] values@[k] == counters_of(all, count as nat)[k],
        decreases count - i,
    {
        let ghost before = reader.rest();
        let ghost start = i * 8;
        match reader.u64() {
            Err(error) => {
                return Err(error);
            },
            Ok(value) => {
                proof {
                    assert(crate::proto::head(before, 8) =~= all.subrange(start as int, start + 8));
                    assert(reader.rest() =~= crate::proto::skip(all, (start + 8) as nat));
                }
                values.push(value);
            },
        }
        i = i + 1;
    }
    assert(values@ =~= counters_of(all, count as nat));
    Ok(values)
}

pub fn decode_stats(payload: &[u8]) -> (stats: Result<(Stats, u64), ProtoError>)
    ensures
        stats == stats_of(payload@),
{
    let mut reader = Reader::new(payload);
    let values = match read_counters(&mut reader, 13) {
        Err(error) => {
            return Err(error);
        },
        Ok(values) => values,
    };
    match reader.finish() {
        Err(error) => Err(error),
        Ok(()) => Ok(
            (
                Stats {
                    lookups: values[0],
                    queried_blocks: values[1],
                    hit_blocks: values[2],
                    inserted_blocks: values[3],
                    deduped_blocks: values[4],
                    rejected_blocks: values[5],
                    evicted_blocks: values[6],
                    demoted_blocks: values[7],
                    blocking_demotions: values[8],
                    written_back: values[9],
                    promoted_blocks: values[10],
                    bytes_admitted: values[11],
                },
                values[12],
            ),
        ),
    }
}

} // verus!
