//! Where everything stands on the wire, byte by byte, and what a peer may
//! conclude from what it reads.

use vstd::prelude::*;

use crate::block::{BlockHash, BlockLayout, DType};
use crate::message::PutRequest;
use crate::proto::{Header, Opcode, ProtoError, Reader, ServerInfo};
use crate::server::Plan;
use crate::store::{AdmitReport, Stats};

verus! {

/// Four bytes from `at` on, as one number in network order.
pub open spec fn quad(bytes: Seq<u8>, at: int) -> int {
    bytes[at] * 0x100_0000 + bytes[at + 1] * 0x1_0000 + bytes[at + 2] * 0x100 + bytes[at + 3]
}

proof fn lemma_quad_of(value: nat)
    requires
        value < 0x1_0000_0000,
    ensures
        crate::bytes::be(value, 4).len() == 4,
        quad(crate::bytes::be(value, 4), 0) == value,
{
    crate::bytes::lemma_be_len(value, 4);
    reveal_with_fuel(crate::bytes::be, 5);
}

proof fn lemma_quad_says(bytes: Seq<u8>, at: int)
    requires
        0 <= at && at + 4 <= bytes.len(),
    ensures
        crate::bytes::be_value(bytes.subrange(at, at + 4)) == quad(bytes, at),
        0 <= quad(bytes, at) < 0x1_0000_0000,
{
    let part = bytes.subrange(at, at + 4);
    reveal_with_fuel(crate::bytes::be_value, 5);
    assert(part.drop_last().drop_last().drop_last().drop_last().len() == 0);
}

/// The bytes of a header: "KVT1", the version, the opcode, flags, a zero, the
/// request's id and the length of what follows, both in network order.
pub proof fn lemma_header_on_the_wire(header: Header, bytes: [u8; 16])
    requires
        call_ensures(Header::encode, (&header,), bytes),
    ensures
        bytes@[0] == 0x4B && bytes@[1] == 0x56 && bytes@[2] == 0x54 && bytes@[3] == 0x31,
        bytes@[4] == 1,
        bytes@[5] == (match header.opcode {
            Opcode::Info => 1u8,
            Opcode::MatchPrefix => 2,
            Opcode::GetBlocks => 3,
            Opcode::PutBlocks => 4,
            Opcode::Stats => 5,
            Opcode::Error => 0x7F,
        }),
        bytes@[6] == header.flags,
        bytes@[7] == 0,
        quad(bytes@, 8) == header.request_id,
        quad(bytes@, 12) == header.payload_len,
{
    lemma_quad_of(crate::proto::MAGIC as nat);
    lemma_quad_of(header.request_id as nat);
    lemma_quad_of(header.payload_len as nat);
    let all = bytes@;
    let magic = crate::bytes::be(crate::proto::MAGIC as nat, 4);
    let id = crate::bytes::be(header.request_id as nat, 4);
    let len = crate::bytes::be(header.payload_len as nat, 4);
    assert(all[0] == magic[0] && all[1] == magic[1] && all[2] == magic[2] && all[3] == magic[3]);
    assert(all[8] == id[0] && all[9] == id[1] && all[10] == id[2] && all[11] == id[3]);
    assert(all[12] == len[0] && all[13] == len[1] && all[14] == len[2] && all[15] == len[3]);
    reveal_with_fuel(crate::bytes::be, 5);
}

/// What a header is taken for. It is refused for the first thing that is wrong
/// with it: not our magic, another version, an opcode nobody knows, a payload
/// over 64 MiB. Otherwise it says just what its bytes say.
pub proof fn lemma_header_off_the_wire(bytes: [u8; 16], header: Result<Header, ProtoError>)
    requires
        call_ensures(Header::decode, (&bytes,), header),
    ensures
        ({
            let known = 1 <= bytes@[5] <= 5 || bytes@[5] == 0x7F;
            if quad(bytes@, 0) != 0x4B56_5431 {
                header matches Err(ProtoError::BadMagic(got)) && got == quad(bytes@, 0)
            } else if bytes@[4] != 1 {
                header matches Err(ProtoError::BadVersion(got)) && got == bytes@[4]
            } else if !known {
                header matches Err(ProtoError::BadOpcode(got)) && got == bytes@[5]
            } else if quad(bytes@, 12) > 67_108_864 {
                header matches Err(ProtoError::PayloadTooLarge(got)) && got == quad(bytes@, 12)
            } else {
                &&& header matches Ok(said)
                &&& said.opcode == (if bytes@[5] == 1 {
                    Opcode::Info
                } else if bytes@[5] == 2 {
                    Opcode::MatchPrefix
                } else if bytes@[5] == 3 {
                    Opcode::GetBlocks
                } else if bytes@[5] == 4 {
                    Opcode::PutBlocks
                } else if bytes@[5] == 5 {
                    Opcode::Stats
                } else {
                    Opcode::Error
                })
                &&& said.flags == bytes@[6]
                &&& said.request_id == quad(bytes@, 8)
                &&& said.payload_len == quad(bytes@, 12)
            }
        }),
{
    lemma_quad_says(bytes@, 0);
    lemma_quad_says(bytes@, 8);
    lemma_quad_says(bytes@, 12);
}

/// Where the fields of a frame stand.
pub(crate) proof fn lemma_frame_fields(
    opcode: Opcode,
    request_id: u32,
    payload: Seq<u8>,
    bytes: Seq<u8>,
)
    requires
        bytes == crate::message::frame_bytes(opcode, request_id, payload),
    ensures
        bytes.len() == 16 + payload.len(),
        bytes.skip(16) == payload,
        quad(bytes, 0) == 0x4B56_5431,
        bytes[4] == 1,
        bytes[5] == crate::proto::opcode_byte(opcode),
        bytes[6] == 0,
        quad(bytes, 8) == request_id,
        payload.len() <= u32::MAX ==> quad(bytes, 12) == payload.len(),
{
    let header = Header { opcode, flags: 0, request_id, payload_len: payload.len() as u32 };
    crate::proto::lemma_header_round_trip(header);
    let head = crate::proto::header_bytes(header);
    assert(bytes == head + payload);
    assert(bytes.skip(16) =~= payload);
    lemma_quad_of(crate::proto::MAGIC as nat);
    lemma_quad_of(request_id as nat);
    lemma_quad_of(header.payload_len as nat);
    let magic = crate::bytes::be(crate::proto::MAGIC as nat, 4);
    let id = crate::bytes::be(request_id as nat, 4);
    let len = crate::bytes::be(header.payload_len as nat, 4);
    assert(bytes[0] == magic[0] && bytes[1] == magic[1] && bytes[2] == magic[2] && bytes[3]
        == magic[3]);
    assert(bytes[8] == id[0] && bytes[9] == id[1] && bytes[10] == id[2] && bytes[11] == id[3]);
    assert(bytes[12] == len[0] && bytes[13] == len[1] && bytes[14] == len[2] && bytes[15]
        == len[3]);
}

/// The same of a frame whose payload is one count.
pub(crate) proof fn lemma_short_frame(
    opcode: Opcode,
    request_id: u32,
    count: u32,
    bytes: Seq<u8>,
)
    requires
        bytes == crate::message::frame_bytes(
            opcode,
            request_id,
            crate::bytes::be(count as nat, 4),
        ),
    ensures
        bytes.len() == 20,
        bytes[5] == crate::proto::opcode_byte(opcode),
        quad(bytes, 8) == request_id,
        quad(bytes, 12) == 4,
        quad(bytes, 16) == count,
{
    let payload = crate::bytes::be(count as nat, 4);
    lemma_quad_of(count as nat);
    lemma_frame_fields(opcode, request_id, payload, bytes);
    let rest = bytes.skip(16);
    assert(rest[0] == bytes[16] && rest[1] == bytes[17] && rest[2] == bytes[18] && rest[3]
        == bytes[19]);
}

/// A frame is a header that says how long the payload is, and the payload.
pub proof fn lemma_frame_on_the_wire(
    opcode: Opcode,
    request_id: u32,
    payload: &[u8],
    bytes: Vec<u8>,
)
    requires
        call_ensures(crate::message::frame, (opcode, request_id, payload), bytes),
    ensures
        bytes@.len() == 16 + payload@.len(),
        bytes@.skip(16) == payload@,
        quad(bytes@, 0) == 0x4B56_5431,
        bytes@[4] == 1,
        bytes@[5] == (match opcode {
            Opcode::Info => 1u8,
            Opcode::MatchPrefix => 2,
            Opcode::GetBlocks => 3,
            Opcode::PutBlocks => 4,
            Opcode::Stats => 5,
            Opcode::Error => 0x7F,
        }),
        bytes@[6] == 0,
        quad(bytes@, 8) == request_id,
        payload@.len() <= u32::MAX ==> quad(bytes@, 12) == payload@.len(),
{
    lemma_frame_fields(opcode, request_id, payload@, bytes@);
}

/// A list of names is written as a count and the names, sixteen bytes each.
pub proof fn lemma_names_on_the_wire(hashes: &[BlockHash], payload: Vec<u8>, i: int)
    requires
        call_ensures(crate::message::encode_hash_request, (hashes,), payload),
        0 <= i < hashes@.len() <= u32::MAX,
    ensures
        payload@.len() == 4 + 16 * hashes@.len(),
        quad(payload@, 0) == hashes@.len(),
        payload@.subrange(4 + 16 * i, 20 + 16 * i) == crate::bytes::be(hashes@[i]@ as nat, 16),
{
    lemma_quad_of(hashes@.len());
    let count = crate::bytes::be(hashes@.len(), 4);
    let names = crate::proto::name_bytes(hashes@);
    lemma_name_at(hashes@, i);
    assert(payload@ =~= count + names);
    assert(payload@.subrange(4 + 16 * i, 20 + 16 * i) =~= names.subrange(16 * i, 16 * i + 16));
}

proof fn lemma_name_at(hashes: Seq<BlockHash>, i: int)
    requires
        0 <= i < hashes.len(),
    ensures
        crate::proto::name_bytes(hashes).len() == 16 * hashes.len(),
        crate::proto::name_bytes(hashes).subrange(16 * i, 16 * i + 16) == crate::bytes::be(
            hashes[i]@ as nat,
            16,
        ),
    decreases hashes.len(),
{
    let before = hashes.drop_last();
    let all = crate::proto::name_bytes(hashes);
    crate::bytes::lemma_be_len(hashes.last()@ as nat, 16);
    if i < before.len() {
        lemma_name_at(before, i);
        assert(all.subrange(16 * i, 16 * i + 16) =~= crate::proto::name_bytes(before).subrange(
            16 * i,
            16 * i + 16,
        ));
    } else {
        if before.len() > 0 {
            lemma_name_at(before, 0);
        }
        assert(all.subrange(16 * i, 16 * i + 16) =~= crate::bytes::be(hashes.last()@ as nat, 16));
    }
}

/// What a list of names is taken for. It is refused if it is shorter or longer
/// than its count says, or if the count is over 256; otherwise it holds the
/// names in the order in which they stand.
pub proof fn lemma_names_off_the_wire(payload: &[u8], hashes: Result<Vec<BlockHash>, ProtoError>)
    requires
        call_ensures(crate::message::read_hash_request, (payload,), hashes),
    ensures
        ({
            let count = quad(payload@, 0);
            if payload@.len() < 4 {
                hashes matches Err(ProtoError::Truncated)
            } else if count > 256 {
                hashes matches Err(ProtoError::TooManyBlocks(got)) && got == count
            } else if payload@.len() < 4 + 16 * count {
                hashes matches Err(ProtoError::Truncated)
            } else if payload@.len() > 4 + 16 * count {
                hashes matches Err(ProtoError::TrailingBytes(extra)) && extra == payload@.len() - 4
                    - 16 * count
            } else {
                &&& hashes matches Ok(names)
                &&& names@.len() == count
                &&& forall|i: int|
                    0 <= i < count ==> crate::bytes::be((#[trigger] names@[i])@ as nat, 16)
                        == payload@.subrange(4 + 16 * i, 20 + 16 * i)
            }
        }),
{
    if payload@.len() >= 4 {
        lemma_quad_says(payload@, 0);
        let rest = crate::proto::skip(payload@, 4);
        let count = quad(payload@, 0);
        crate::bytes::lemma_spans();
        assert(payload@.len() <= usize::MAX) by {
            vstd::slice::axiom_spec_len(payload);
        }
        if count <= 256 && payload@.len() == 4 + 16 * count {
            let names = hashes->Ok_0;
            assert forall|i: int| 0 <= i < count implies crate::bytes::be(
                (#[trigger] names@[i])@ as nat,
                16,
            ) == payload@.subrange(4 + 16 * i, 20 + 16 * i) by {
                let part = rest.subrange(i * 16, i * 16 + 16);
                assert(part =~= payload@.subrange(4 + 16 * i, 20 + 16 * i));
                crate::bytes::lemma_be_value_bound(part);
                crate::bytes::lemma_be_of_value(part);
            }
        }
    }
}

/// How many blocks matched goes over the wire as four bytes.
pub proof fn lemma_match_on_the_wire(matched: usize, payload: Vec<u8>)
    requires
        call_ensures(crate::message::encode_match, (matched,), payload),
        matched <= u32::MAX,
    ensures
        payload@.len() == 4,
        quad(payload@, 0) == matched,
{
    lemma_quad_of(matched as nat);
}

/// And comes back as what those four bytes say; fewer or more are refused.
pub proof fn lemma_match_off_the_wire(payload: &[u8], matched: Result<usize, ProtoError>)
    requires
        call_ensures(crate::message::decode_match, (payload,), matched),
    ensures
        match matched {
            Ok(count) => payload@.len() == 4 && count == quad(payload@, 0),
            Err(ProtoError::Truncated) => payload@.len() < 4,
            Err(ProtoError::TrailingBytes(extra)) => payload@.len() > 4 && extra == payload@.len()
                - 4,
            Err(_) => false,
        },
{
    vstd::slice::axiom_spec_len(payload);
    if payload@.len() >= 4 {
        lemma_quad_says(payload@, 0);
    }
}

/// A run of blocks is taken apart into blocks of just the size that was
/// expected, in the order in which they stand, and only if the payload is
/// exactly as long as its count says.
pub proof fn lemma_run_off_the_wire<'a>(
    payload: &'a [u8],
    size: usize,
    blocks: Result<Vec<&'a [u8]>, ProtoError>,
)
    requires
        call_ensures(crate::message::decode_run, (payload, size), blocks),
    ensures
        ({
            let count = quad(payload@, 0);
            if payload@.len() < 4 {
                blocks matches Err(ProtoError::Truncated)
            } else if count > 256 {
                blocks matches Err(ProtoError::TooManyBlocks(got)) && got == count
            } else if payload@.len() < 4 + count * size {
                blocks matches Err(ProtoError::Truncated)
            } else if payload@.len() > 4 + count * size {
                blocks matches Err(ProtoError::TrailingBytes(extra)) && extra == payload@.len() - 4
                    - count * size
            } else {
                &&& blocks matches Ok(got)
                &&& got@.len() == count
                &&& forall|i: int|
                    0 <= i < count ==> (#[trigger] got@[i])@ == payload@.subrange(
                        4 + i * size,
                        4 + i * size + size,
                    )
            }
        }),
{
    vstd::slice::axiom_spec_len(payload);
    if payload@.len() >= 4 {
        lemma_quad_says(payload@, 0);
        let rest = crate::proto::skip(payload@, 4);
        let count = quad(payload@, 0);
        assert(count * size >= 0) by (nonlinear_arith)
            requires
                count >= 0,
                size >= 0,
        ;
        if count <= 256 && payload@.len() == 4 + count * size {
            let got = blocks->Ok_0;
            let contents = crate::message::contents_of(got@);
            assert(contents == crate::message::blocks_of(rest, count as nat, size as nat));
            assert forall|i: int| 0 <= i < count implies (#[trigger] got@[i])@
                == payload@.subrange(4 + i * size, 4 + i * size + size) by {
                assert(contents[i] == got@[i]@);
                assert(0 <= i * size && i * size + size <= count * size) by (nonlinear_arith)
                    requires
                        0 <= i < count,
                        size >= 0,
                ;
                assert(rest.subrange(i * size, i * size + size) =~= payload@.subrange(
                    4 + i * size,
                    4 + i * size + size,
                ));
            }
        }
    }
}

/// What goes out ahead of a run says how many blocks follow, and how many bytes
/// that is.
pub proof fn lemma_run_announces_itself(
    request_id: u32,
    count: usize,
    size: usize,
    bytes: Vec<u8>,
)
    requires
        call_ensures(crate::message::run_prelude, (request_id, count, size), bytes),
        4 + count * size <= u32::MAX,
        count <= u32::MAX,
    ensures
        bytes@.len() == 20,
        quad(bytes@, 0) == 0x4B56_5431,
        bytes@[4] == 1,
        bytes@[5] == 3,
        bytes@[6] == 0,
        quad(bytes@, 8) == request_id,
        quad(bytes@, 12) == 4 + count * size,
        quad(bytes@, 16) == count,
{
    let len = (4 + count * size) as u32;
    assert(count * size >= 0) by (nonlinear_arith)
        requires
            count >= 0,
            size >= 0,
    ;
    let header = Header { opcode: Opcode::GetBlocks, flags: 0, request_id, payload_len: len };
    lemma_quad_of(crate::proto::MAGIC as nat);
    lemma_quad_of(request_id as nat);
    lemma_quad_of(len as nat);
    lemma_quad_of(count as nat);
    let magic = crate::bytes::be(crate::proto::MAGIC as nat, 4);
    let id = crate::bytes::be(request_id as nat, 4);
    let long = crate::bytes::be(len as nat, 4);
    let many = crate::bytes::be(count as nat, 4);
    assert(bytes@ == crate::proto::header_bytes(header) + many);
    assert(bytes@[0] == magic[0] && bytes@[1] == magic[1] && bytes@[2] == magic[2] && bytes@[3]
        == magic[3]);
    assert(bytes@[8] == id[0] && bytes@[9] == id[1] && bytes@[10] == id[2] && bytes@[11] == id[3]);
    assert(bytes@[12] == long[0] && bytes@[13] == long[1] && bytes@[14] == long[2] && bytes@[15]
        == long[3]);
    assert(bytes@[16] == many[0] && bytes@[17] == many[1] && bytes@[18] == many[2] && bytes@[19]
        == many[3]);
}

/// What an offer is taken for: a first byte that says whether a parent follows,
/// the parent, a count, then a name and a depth per block, then the blocks. It
/// is taken only if it is exactly that long.
pub proof fn lemma_put_off_the_wire<'a>(
    payload: &'a [u8],
    size: usize,
    request: Result<PutRequest<'a>, ProtoError>,
)
    requires
        call_ensures(crate::message::decode_put, (payload, size), request),
    ensures
        ({
            let all = payload@;
            let p: int = if all.len() >= 1 && all[0] == 0 {
                1
            } else {
                17
            };
            let count = quad(all, p);
            let names = p + 4;
            let blocks = names + 20 * count;
            if all.len() < p + 4 {
                request matches Err(ProtoError::Truncated)
            } else if count > 256 {
                request matches Err(ProtoError::TooManyBlocks(got)) && got == count
            } else if all.len() < blocks + count * size {
                request matches Err(ProtoError::Truncated)
            } else if all.len() > blocks + count * size {
                request matches Err(ProtoError::TrailingBytes(extra)) && extra == all.len() - blocks
                    - count * size
            } else {
                &&& request matches Ok(offer)
                &&& all[0] == 0 ==> offer.parent is None
                &&& all[0] != 0 ==> (offer.parent matches Some(parent) && crate::bytes::be(
                    parent@ as nat,
                    16,
                ) == all.subrange(1, 17))
                &&& offer.names@.len() == count
                &&& offer.blocks@.len() == count
                &&& forall|i: int|
                    0 <= i < count ==> {
                        &&& crate::bytes::be((#[trigger] offer.names@[i]).0@ as nat, 16)
                            == all.subrange(names + 20 * i, names + 20 * i + 16)
                        &&& offer.names@[i].1 == quad(all, names + 20 * i + 16)
                    }
                &&& forall|i: int|
                    0 <= i < count ==> (#[trigger] offer.blocks@[i])@ == all.subrange(
                        blocks + i * size,
                        blocks + i * size + size,
                    )
            }
        }),
{
    vstd::slice::axiom_spec_len(payload);
    let all = payload@;
    let p: int = if all.len() >= 1 && all[0] == 0 {
        1
    } else {
        17
    };
    if all.len() >= p {
        let after = crate::proto::skip(all, p as nat);
        assert(crate::message::parent_of(all)->Ok_0.1 == after);
        if all.len() >= p + 4 {
            lemma_quad_says(all, p);
            assert(crate::proto::head(after, 4) =~= all.subrange(p, p + 4));
            let count = quad(all, p);
            let names = p + 4;
            let blocks = names + 20 * count;
            let listed = crate::proto::skip(after, 4);
            assert(listed =~= all.skip(names));
            assert(count * size >= 0) by (nonlinear_arith)
                requires
                    count >= 0,
                    size >= 0,
            ;
            if count <= 256 && all.len() >= blocks {
                let rest = crate::proto::skip(listed, (count * 20) as nat);
                assert(rest =~= all.skip(blocks));
                if all.len() == blocks + count * size {
                    let offer = request->Ok_0;
                    lemma_put_parts(all, p, count, size as int, offer);
                }
            }
        }
    }
}

proof fn lemma_put_parts<'a>(
    all: Seq<u8>,
    p: int,
    count: int,
    size: int,
    offer: PutRequest<'a>,
)
    requires
        p == (if all[0] == 0 {
            1int
        } else {
            17
        }),
        count >= 0,
        size >= 0,
        all.len() == p + 4 + 20 * count + count * size,
        count * size >= 0,
        offer.parent == (if all[0] == 0 {
            None
        } else {
            Some(BlockHash { name: crate::bytes::be_value(all.subrange(1, 17)) as u128 })
        }),
        offer.names@ == crate::message::links_of(all.skip(p + 4), count as nat),
        crate::message::contents_of(offer.blocks@) == crate::message::blocks_of(
            all.skip(p + 4 + 20 * count),
            count as nat,
            size as nat,
        ),
    ensures
        all[0] != 0 ==> (offer.parent matches Some(parent) && crate::bytes::be(parent@ as nat, 16)
            == all.subrange(1, 17)),
        forall|i: int|
            0 <= i < count ==> {
                &&& crate::bytes::be((#[trigger] offer.names@[i]).0@ as nat, 16) == all.subrange(
                    p + 4 + 20 * i,
                    p + 4 + 20 * i + 16,
                )
                &&& offer.names@[i].1 == quad(all, p + 4 + 20 * i + 16)
            },
        forall|i: int|
            0 <= i < count ==> (#[trigger] offer.blocks@[i])@ == all.subrange(
                p + 4 + 20 * count + i * size,
                p + 4 + 20 * count + i * size + size,
            ),
        offer.blocks@.len() == count,
{
    crate::bytes::lemma_spans();
    let names = p + 4;
    let blocks = names + 20 * count;
    let listed = all.skip(names);
    let rest = all.skip(blocks);
    if all[0] != 0 {
        crate::bytes::lemma_be_value_bound(all.subrange(1, 17));
        crate::bytes::lemma_be_of_value(all.subrange(1, 17));
    }
    assert forall|i: int| 0 <= i < count implies {
        &&& crate::bytes::be((#[trigger] offer.names@[i]).0@ as nat, 16) == all.subrange(
            names + 20 * i,
            names + 20 * i + 16,
        )
        &&& offer.names@[i].1 == quad(all, names + 20 * i + 16)
    } by {
        let name = listed.subrange(i * 20, i * 20 + 16);
        let depth = listed.subrange(i * 20 + 16, i * 20 + 20);
        assert(name =~= all.subrange(names + 20 * i, names + 20 * i + 16));
        assert(depth =~= all.subrange(names + 20 * i + 16, names + 20 * i + 20));
        crate::bytes::lemma_be_value_bound(name);
        crate::bytes::lemma_be_of_value(name);
        lemma_quad_says(all, names + 20 * i + 16);
    }
    let contents = crate::message::contents_of(offer.blocks@);
    assert(contents.len() == count);
    assert forall|i: int| 0 <= i < count implies (#[trigger] offer.blocks@[i])@ == all.subrange(
        blocks + i * size,
        blocks + i * size + size,
    ) by {
        assert(contents[i] == offer.blocks@[i]@);
        assert(0 <= i * size && i * size + size <= count * size) by (nonlinear_arith)
            requires
                0 <= i < count,
                size >= 0,
        ;
        assert(rest.subrange(i * size, i * size + size) =~= all.subrange(
            blocks + i * size,
            blocks + i * size + size,
        ));
    }
}

/// A report goes over the wire as three counts, four bytes each: what was
/// taken in, what was there, what was turned away.
pub proof fn lemma_report_on_the_wire(report: AdmitReport, payload: Vec<u8>)
    requires
        call_ensures(crate::message::encode_report, (&report,), payload),
        report.inserted <= u32::MAX,
        report.deduped <= u32::MAX,
        report.dropped <= u32::MAX,
    ensures
        payload@.len() == 12,
        quad(payload@, 0) == report.inserted,
        quad(payload@, 4) == report.deduped,
        quad(payload@, 8) == report.dropped,
{
    lemma_quad_of(report.inserted as nat);
    lemma_quad_of(report.deduped as nat);
    lemma_quad_of(report.dropped as nat);
    let a = crate::bytes::be(report.inserted as nat, 4);
    let b = crate::bytes::be(report.deduped as nat, 4);
    let c = crate::bytes::be(report.dropped as nat, 4);
    assert(payload@ == a + b + c);
    assert(payload@[0] == a[0] && payload@[1] == a[1] && payload@[2] == a[2] && payload@[3]
        == a[3]);
    assert(payload@[4] == b[0] && payload@[5] == b[1] && payload@[6] == b[2] && payload@[7]
        == b[3]);
    assert(payload@[8] == c[0] && payload@[9] == c[1] && payload@[10] == c[2] && payload@[11]
        == c[3]);
}

/// And is taken for what its three counts say.
pub proof fn lemma_report_off_the_wire(payload: &[u8], report: Result<AdmitReport, ProtoError>)
    requires
        call_ensures(crate::message::decode_report, (payload,), report),
    ensures
        match report {
            Ok(said) => {
                &&& payload@.len() == 12
                &&& said.inserted == quad(payload@, 0)
                &&& said.deduped == quad(payload@, 4)
                &&& said.dropped == quad(payload@, 8)
            },
            Err(ProtoError::Truncated) => payload@.len() < 12,
            Err(ProtoError::TrailingBytes(extra)) => payload@.len() > 12 && extra == payload@.len()
                - 12,
            Err(_) => false,
        },
{
    vstd::slice::axiom_spec_len(payload);
    if payload@.len() >= 12 {
        lemma_quad_says(payload@, 0);
        lemma_quad_says(payload@, 4);
        lemma_quad_says(payload@, 8);
        assert(crate::proto::head(crate::proto::skip(payload@, 4), 4) =~= payload@.subrange(4, 8));
        assert(crate::proto::head(crate::proto::skip(payload@, 8), 4) =~= payload@.subrange(8, 12));
    }
}

/// The counters of a store go over the wire in this order, eight bytes each,
/// and are taken for what they say.
pub proof fn lemma_stats_over_the_wire(stats: Stats, resident: usize, payload: Vec<u8>)
    requires
        call_ensures(crate::message::encode_stats, (&stats, resident), payload),
    ensures
        payload@.len() == 104,
        ({
            let field = |k: int| payload@.subrange(8 * k, 8 * k + 8);
            &&& field(0) == crate::bytes::be(stats.lookups as nat, 8)
            &&& field(1) == crate::bytes::be(stats.queried_blocks as nat, 8)
            &&& field(2) == crate::bytes::be(stats.hit_blocks as nat, 8)
            &&& field(3) == crate::bytes::be(stats.inserted_blocks as nat, 8)
            &&& field(4) == crate::bytes::be(stats.deduped_blocks as nat, 8)
            &&& field(5) == crate::bytes::be(stats.rejected_blocks as nat, 8)
            &&& field(6) == crate::bytes::be(stats.evicted_blocks as nat, 8)
            &&& field(7) == crate::bytes::be(stats.demoted_blocks as nat, 8)
            &&& field(8) == crate::bytes::be(stats.blocking_demotions as nat, 8)
            &&& field(9) == crate::bytes::be(stats.written_back as nat, 8)
            &&& field(10) == crate::bytes::be(stats.promoted_blocks as nat, 8)
            &&& field(11) == crate::bytes::be(stats.bytes_admitted as nat, 8)
            &&& field(12) == crate::bytes::be(resident as nat, 8)
        }),
{
    let values = crate::message::counter_values(stats, resident as u64);
    assert forall|k: int| 0 <= k < 13 implies payload@.subrange(8 * k, 8 * k + 8)
        == crate::bytes::be(#[trigger] values[k] as nat, 8) by {
        lemma_counter_at(values, k);
    }
    lemma_counter_at(values, 0);
    assert(values[0] == stats.lookups && values[1] == stats.queried_blocks && values[2]
        == stats.hit_blocks && values[3] == stats.inserted_blocks && values[4]
        == stats.deduped_blocks && values[5] == stats.rejected_blocks && values[6]
        == stats.evicted_blocks && values[7] == stats.demoted_blocks && values[8]
        == stats.blocking_demotions && values[9] == stats.written_back && values[10]
        == stats.promoted_blocks && values[11] == stats.bytes_admitted && values[12] == resident);
}

proof fn lemma_counter_at(values: Seq<u64>, k: int)
    requires
        0 <= k < values.len(),
    ensures
        crate::message::counter_bytes(values).len() == 8 * values.len(),
        crate::message::counter_bytes(values).subrange(8 * k, 8 * k + 8) == crate::bytes::be(
            values[k] as nat,
            8,
        ),
    decreases values.len(),
{
    let before = values.drop_last();
    let all = crate::message::counter_bytes(values);
    crate::bytes::lemma_be_len(values.last() as nat, 8);
    if k < before.len() {
        lemma_counter_at(before, k);
        assert(all.subrange(8 * k, 8 * k + 8) =~= crate::message::counter_bytes(before).subrange(
            8 * k,
            8 * k + 8,
        ));
    } else {
        if before.len() > 0 {
            lemma_counter_at(before, 0);
        }
        assert(all.subrange(8 * k, 8 * k + 8) =~= crate::bytes::be(values.last() as nat, 8));
    }
}

/// What the counters of a store are taken for.
pub proof fn lemma_stats_off_the_wire(payload: &[u8], stats: Result<(Stats, u64), ProtoError>)
    requires
        call_ensures(crate::message::decode_stats, (payload,), stats),
    ensures
        match stats {
            Ok((said, resident)) => {
                let field = |k: int| payload@.subrange(8 * k, 8 * k + 8);
                &&& payload@.len() == 104
                &&& field(0) == crate::bytes::be(said.lookups as nat, 8)
                &&& field(1) == crate::bytes::be(said.queried_blocks as nat, 8)
                &&& field(2) == crate::bytes::be(said.hit_blocks as nat, 8)
                &&& field(3) == crate::bytes::be(said.inserted_blocks as nat, 8)
                &&& field(4) == crate::bytes::be(said.deduped_blocks as nat, 8)
                &&& field(5) == crate::bytes::be(said.rejected_blocks as nat, 8)
                &&& field(6) == crate::bytes::be(said.evicted_blocks as nat, 8)
                &&& field(7) == crate::bytes::be(said.demoted_blocks as nat, 8)
                &&& field(8) == crate::bytes::be(said.blocking_demotions as nat, 8)
                &&& field(9) == crate::bytes::be(said.written_back as nat, 8)
                &&& field(10) == crate::bytes::be(said.promoted_blocks as nat, 8)
                &&& field(11) == crate::bytes::be(said.bytes_admitted as nat, 8)
                &&& field(12) == crate::bytes::be(resident as nat, 8)
            },
            Err(ProtoError::Truncated) => payload@.len() < 104,
            Err(ProtoError::TrailingBytes(extra)) => payload@.len() > 104 && extra == payload@.len()
                - 104,
            Err(_) => false,
        },
{
    vstd::slice::axiom_spec_len(payload);
    if payload@.len() == 104 {
        let values = crate::message::counters_of(payload@, 13);
        crate::bytes::lemma_spans();
        assert forall|k: int| 0 <= k < 13 implies payload@.subrange(8 * k, 8 * k + 8)
            == crate::bytes::be(#[trigger] values[k] as nat, 8) by {
            let part = payload@.subrange(k * 8, k * 8 + 8);
            crate::bytes::lemma_be_value_bound(part);
            crate::bytes::lemma_be_of_value(part);
        }
        let (said, resident) = stats->Ok_0;
        assert(values[0] == said.lookups && values[1] == said.queried_blocks && values[2]
            == said.hit_blocks && values[3] == said.inserted_blocks && values[4]
            == said.deduped_blocks && values[5] == said.rejected_blocks && values[6]
            == said.evicted_blocks && values[7] == said.demoted_blocks && values[8]
            == said.blocking_demotions && values[9] == said.written_back && values[10]
            == said.promoted_blocks && values[11] == said.bytes_admitted && values[12] == resident);
    }
}

/// An offer on the wire: a first byte that says whether a parent follows, the
/// parent, how many blocks there are, a name and a depth for each, and then
/// the blocks back to back.
pub proof fn lemma_put_on_the_wire(
    parent: Option<BlockHash>,
    names: &[(BlockHash, u32)],
    blocks: &[&[u8]],
    size: int,
    payload: Vec<u8>,
    i: int,
)
    requires
        call_ensures(crate::message::encode_put, (parent, names, blocks), payload),
        names@.len() == blocks@.len() <= u32::MAX,
        forall|k: int| 0 <= k < blocks@.len() ==> (#[trigger] blocks@[k])@.len() == size,
        0 <= i < names@.len(),
    ensures
        ({
            let all = payload@;
            let p: int = if parent is None {
                1
            } else {
                17
            };
            let first = p + 4 + 20 * names@.len();
            &&& all.len() == first + names@.len() * size
            &&& match parent {
                None => all[0] == 0,
                Some(above) => all[0] == 1 && all.subrange(1, 17) == crate::bytes::be(
                    above@ as nat,
                    16,
                ),
            }
            &&& quad(all, p) == names@.len()
            &&& all.subrange(p + 4 + 20 * i, p + 20 + 20 * i) == crate::bytes::be(
                names@[i].0@ as nat,
                16,
            )
            &&& quad(all, p + 20 + 20 * i) == names@[i].1
            &&& all.subrange(first + i * size, first + i * size + size) == blocks@[i]@
        }),
{
    let all = payload@;
    let count = names@.len() as int;
    let p: int = if parent is None {
        1
    } else {
        17
    };
    let first = p + 4 + 20 * count;
    let contents = crate::message::contents_of(blocks@);
    let head = crate::message::parent_bytes(parent);
    let many = crate::bytes::be(names@.len(), 4);
    let links = crate::message::link_bytes(names@);
    let body = crate::message::joined(contents);
    assert(all == head + many + links + body);
    if let Some(above) = parent {
        crate::bytes::lemma_be_len(above@ as nat, 16);
        assert(all.subrange(1, 17) =~= crate::bytes::be(above@ as nat, 16));
    }
    assert(head.len() == p);
    lemma_quad_of(names@.len());
    assert(all[p] == many[0] && all[p + 1] == many[1] && all[p + 2] == many[2] && all[p + 3]
        == many[3]);
    lemma_link_at(names@, i);
    let at = p + 4 + 20 * i;
    assert(all.subrange(at, at + 16) =~= links.subrange(20 * i, 20 * i + 16));
    let depth = links.subrange(20 * i + 16, 20 * i + 20);
    lemma_quad_of(names@[i].1 as nat);
    assert(all[at + 16] == depth[0] && all[at + 17] == depth[1] && all[at + 18] == depth[2] && all[
    at + 19] == depth[3]);
    assert forall|k: int| 0 <= k < contents.len() implies (#[trigger] contents[k]).len()
        == size by {
        assert(blocks@[k]@.len() == size);
    }
    lemma_block_at(contents, size, i);
    assert(0 <= i * size && i * size + size <= count * size) by (nonlinear_arith)
        requires
            0 <= i < count,
            size >= 0,
    ;
    assert(all.subrange(first + i * size, first + i * size + size) =~= body.subrange(
        i * size,
        i * size + size,
    ));
}

proof fn lemma_link_at(names: Seq<(BlockHash, u32)>, i: int)
    requires
        0 <= i < names.len(),
    ensures
        crate::message::link_bytes(names).len() == 20 * names.len(),
        crate::message::link_bytes(names).subrange(20 * i, 20 * i + 16) == crate::bytes::be(
            names[i].0@ as nat,
            16,
        ),
        crate::message::link_bytes(names).subrange(20 * i + 16, 20 * i + 20) == crate::bytes::be(
            names[i].1 as nat,
            4,
        ),
    decreases names.len(),
{
    let before = names.drop_last();
    let all = crate::message::link_bytes(names);
    crate::bytes::lemma_be_len(names.last().0@ as nat, 16);
    crate::bytes::lemma_be_len(names.last().1 as nat, 4);
    if i < before.len() {
        lemma_link_at(before, i);
        let part = crate::message::link_bytes(before);
        assert(all.subrange(20 * i, 20 * i + 16) =~= part.subrange(20 * i, 20 * i + 16));
        assert(all.subrange(20 * i + 16, 20 * i + 20) =~= part.subrange(20 * i + 16, 20 * i + 20));
    } else {
        if before.len() > 0 {
            lemma_link_at(before, 0);
        } else {
            assert(crate::message::link_bytes(before).len() == 0);
        }
        assert(i == before.len() && crate::message::link_bytes(before).len() == 20 * i);
        assert(all == crate::message::link_bytes(before) + crate::bytes::be(
            names.last().0@ as nat,
            16,
        ) + crate::bytes::be(names.last().1 as nat, 4));
        assert(all.subrange(20 * i, 20 * i + 16) =~= crate::bytes::be(
            names.last().0@ as nat,
            16,
        ));
        assert(all.subrange(20 * i + 16, 20 * i + 20) =~= crate::bytes::be(
            names.last().1 as nat,
            4,
        ));
    }
}

proof fn lemma_block_at(blocks: Seq<Seq<u8>>, size: int, i: int)
    requires
        forall|k: int| 0 <= k < blocks.len() ==> (#[trigger] blocks[k]).len() == size,
        0 <= i < blocks.len(),
    ensures
        crate::message::joined(blocks).len() == blocks.len() * size,
        crate::message::joined(blocks).subrange(i * size, i * size + size) == blocks[i],
    decreases blocks.len(),
{
    let before = blocks.drop_last();
    let all = crate::message::joined(blocks);
    let count = blocks.len() as int;
    assert(blocks[count - 1].len() == size);
    assert(blocks[i].len() == size);
    assert(count * size == (count - 1) * size + size) by (nonlinear_arith);
    assert(0 <= i * size && i * size + size <= count * size) by (nonlinear_arith)
        requires
            0 <= i < count,
            size >= 0,
    ;
    if i < before.len() {
        lemma_block_at(before, size, i);
        assert(i * size + size <= (count - 1) * size) by (nonlinear_arith)
            requires
                i + 1 <= count - 1,
                size >= 0,
        ;
        assert(all.subrange(i * size, i * size + size) =~= crate::message::joined(before).subrange(
            i * size,
            i * size + size,
        ));
    } else {
        if before.len() > 0 {
            lemma_block_at(before, size, 0);
        } else {
            assert(0 * size == 0);
        }
        assert(i == count - 1);
        assert(crate::message::joined(before).len() == i * size);
        assert(all == crate::message::joined(before) + blocks.last());
        assert(all.subrange(i * size, i * size + size) =~= blocks.last());
    }
}

/// What a server says of itself, on the wire: the length of the model's name in
/// two bytes, the name, the four dimensions of a block in four bytes each, and
/// one byte for the element type.
pub proof fn lemma_info_on_the_wire(info: ServerInfo, payload: Vec<u8>)
    requires
        call_ensures(crate::proto::encode_info, (&info,), payload),
        vstd::utf8::encode_utf8(info.model_id@).len() <= u16::MAX,
        info.layout.tokens_per_block <= u32::MAX,
        info.layout.num_layers <= u32::MAX,
        info.layout.num_kv_heads <= u32::MAX,
        info.layout.head_dim <= u32::MAX,
    ensures
        ({
            let name = vstd::utf8::encode_utf8(info.model_id@);
            let n = name.len() as int;
            &&& payload@.len() == n + 19
            &&& payload@[0] * 0x100 + payload@[1] == n
            &&& payload@.subrange(2, 2 + n) == name
            &&& quad(payload@, n + 2) == info.layout.tokens_per_block
            &&& quad(payload@, n + 6) == info.layout.num_layers
            &&& quad(payload@, n + 10) == info.layout.num_kv_heads
            &&& quad(payload@, n + 14) == info.layout.head_dim
            &&& payload@[n + 18] == (match info.layout.dtype {
                DType::F32 => 0u8,
                DType::F16 => 1,
                DType::BF16 => 2,
                DType::F8 => 3,
            })
        }),
{
    let all = payload@;
    let name = vstd::utf8::encode_utf8(info.model_id@);
    let n = name.len() as int;
    let len = crate::bytes::be(name.len(), 2);
    let a = crate::bytes::be(info.layout.tokens_per_block as nat, 4);
    let b = crate::bytes::be(info.layout.num_layers as nat, 4);
    let c = crate::bytes::be(info.layout.num_kv_heads as nat, 4);
    let d = crate::bytes::be(info.layout.head_dim as nat, 4);
    lemma_quad_of(info.layout.tokens_per_block as nat);
    lemma_quad_of(info.layout.num_layers as nat);
    lemma_quad_of(info.layout.num_kv_heads as nat);
    lemma_quad_of(info.layout.head_dim as nat);
    crate::bytes::lemma_be_len(name.len(), 2);
    assert(len[0] * 0x100 + len[1] == n) by {
        reveal_with_fuel(crate::bytes::be, 3);
    }
    assert(all == len + name + a + b + c + d + seq![crate::proto::dtype_byte(info.layout.dtype)]);
    assert(all[0] == len[0] && all[1] == len[1]);
    assert(all.subrange(2, 2 + n) =~= name);
    assert(all[n + 2] == a[0] && all[n + 3] == a[1] && all[n + 4] == a[2] && all[n + 5] == a[3]);
    assert(all[n + 6] == b[0] && all[n + 7] == b[1] && all[n + 8] == b[2] && all[n + 9] == b[3]);
    assert(all[n + 10] == c[0] && all[n + 11] == c[1] && all[n + 12] == c[2] && all[n + 13] == c[3]);
    assert(all[n + 14] == d[0] && all[n + 15] == d[1] && all[n + 16] == d[2] && all[n + 17] == d[3]);
}

/// What a server's description of itself is taken for.
pub proof fn lemma_info_off_the_wire(payload: &[u8], info: Result<ServerInfo, ProtoError>)
    requires
        call_ensures(crate::proto::decode_info, (payload,), info),
    ensures
        ({
            let all = payload@;
            let n = all[0] * 0x100 + all[1];
            if all.len() < 2 || all.len() < 2 + n || !vstd::utf8::valid_utf8(all.subrange(2, 2 + n))
                || all.len() < n + 19 {
                info matches Err(ProtoError::Truncated)
            } else if all[n + 18] > 3 {
                info matches Err(ProtoError::LayoutMismatch)
            } else if all.len() > n + 19 {
                info matches Err(ProtoError::TrailingBytes(extra)) && extra == all.len() - n - 19
            } else {
                &&& info matches Ok(said)
                &&& said.model_id@ == vstd::utf8::decode_utf8(all.subrange(2, 2 + n))
                &&& said.layout == (BlockLayout {
                    tokens_per_block: quad(all, n + 2) as usize,
                    num_layers: quad(all, n + 6) as usize,
                    num_kv_heads: quad(all, n + 10) as usize,
                    head_dim: quad(all, n + 14) as usize,
                    dtype: if all[n + 18] == 0 {
                        DType::F32
                    } else if all[n + 18] == 1 {
                        DType::F16
                    } else if all[n + 18] == 2 {
                        DType::BF16
                    } else {
                        DType::F8
                    },
                })
            }
        }),
{
    vstd::slice::axiom_spec_len(payload);
    let all = payload@;
    let n = all[0] * 0x100 + all[1];
    if all.len() >= 2 {
        assert(crate::proto::number(all, 2) == n) by {
            reveal_with_fuel(crate::bytes::be_value, 3);
            assert(crate::proto::head(all, 2).drop_last().drop_last().len() == 0);
        }
        if all.len() >= 2 + n {
            assert(crate::proto::head(crate::proto::skip(all, 2), n as nat) =~= all.subrange(
                2,
                2 + n,
            ));
            let rest = crate::proto::skip(all, (2 + n) as nat);
            if all.len() >= n + 19 {
                lemma_quad_says(all, n + 2);
                lemma_quad_says(all, n + 6);
                lemma_quad_says(all, n + 10);
                lemma_quad_says(all, n + 14);
                assert(crate::proto::head(rest, 4) =~= all.subrange(n + 2, n + 6));
                assert(crate::proto::head(crate::proto::skip(rest, 4), 4) =~= all.subrange(
                    n + 6,
                    n + 10,
                ));
                assert(crate::proto::head(crate::proto::skip(rest, 8), 4) =~= all.subrange(
                    n + 10,
                    n + 14,
                ));
                assert(crate::proto::head(crate::proto::skip(rest, 12), 4) =~= all.subrange(
                    n + 14,
                    n + 18,
                ));
            }
        }
    }
}

/// As many blocks as fit go into one frame: a put of that many, names and all,
/// stays within 64 MiB, and one block more would not, unless 256 blocks were
/// asked for already. A block too large for any frame still gets one.
pub proof fn lemma_frames_are_full(block_bytes: usize, blocks: usize)
    requires
        block_bytes + 20 <= usize::MAX,
        call_ensures(crate::proto::blocks_per_frame, (block_bytes,), blocks),
    ensures
        1 <= blocks <= 256,
        blocks > 1 ==> 21 + blocks * (20 + block_bytes) <= 67_108_864,
        blocks < 256 ==> 21 + (blocks + 1) * (20 + block_bytes) > 67_108_864,
{
    let room = 67_108_843nat;
    let each = (block_bytes + 20) as nat;
    let fit = room / each;
    assert(fit * each <= room && (fit + 1) * each > room) by (nonlinear_arith)
        requires
            fit == room / each,
            each > 0,
    ;
    if 1 <= blocks <= fit {
        assert(blocks * each <= fit * each) by (nonlinear_arith)
            requires
                blocks <= fit,
                each > 0,
        ;
    }
    if fit == 0 {
        assert(each > room) by (nonlinear_arith)
            requires
                fit == 0,
                (fit + 1) * each > room,
        ;
        assert((1 + 1) * (20 + block_bytes) == 2 * each);
    } else if blocks < 256 {
        assert(blocks == fit);
    }
}

/// A fetch is planned for just as much of the request as one frame can answer:
/// from its first name on, as many as one frame carries, and all of them where
/// there are no more than that.
pub proof fn lemma_fetch_is_planned_for_a_frame<'a>(
    header: &Header,
    payload: &'a [u8],
    block_bytes: usize,
    per_frame: usize,
    asked: Result<Vec<BlockHash>, ProtoError>,
    plan: Result<Plan<'a>, ProtoError>,
)
    requires
        block_bytes + 20 <= usize::MAX,
        header.opcode == Opcode::GetBlocks,
        call_ensures(crate::server::dispatch, (header, payload, block_bytes), plan),
        call_ensures(crate::message::read_hash_request, (payload,), asked),
        call_ensures(crate::proto::blocks_per_frame, (block_bytes,), per_frame),
    ensures
        match asked {
            Err(error) => plan == Err::<Plan<'a>, ProtoError>(error),
            Ok(names) => plan matches Ok(Plan::Get(got)) && {
                &&& forall|i: int| 0 <= i < got@.len() ==> #[trigger] got@[i] == names@[i]
                &&& got@.len() <= names@.len()
                &&& got@.len() <= per_frame
                &&& got@.len() < names@.len() ==> got@.len() == per_frame
            },
        },
{
}

/// Every other request is planned for all that it says: a lookup for all its
/// names, an offer for all its blocks. Nobody may ask for an `Error`.
pub proof fn lemma_requests_are_planned_whole<'a>(
    header: &Header,
    payload: &'a [u8],
    block_bytes: usize,
    asked: Result<Vec<BlockHash>, ProtoError>,
    offered: Result<PutRequest<'a>, ProtoError>,
    plan: Result<Plan<'a>, ProtoError>,
)
    requires
        block_bytes + 20 <= usize::MAX,
        call_ensures(crate::server::dispatch, (header, payload, block_bytes), plan),
        call_ensures(crate::message::read_hash_request, (payload,), asked),
        call_ensures(crate::message::decode_put, (payload, block_bytes), offered),
    ensures
        header.opcode == Opcode::Info ==> plan matches Ok(Plan::Info),
        header.opcode == Opcode::Stats ==> plan matches Ok(Plan::Stats),
        header.opcode == Opcode::Error ==> plan == Err::<Plan<'a>, ProtoError>(
            ProtoError::BadOpcode(0x7F),
        ),
        header.opcode == Opcode::MatchPrefix ==> match asked {
            Err(error) => plan == Err::<Plan<'a>, ProtoError>(error),
            Ok(names) => plan matches Ok(Plan::Match(got)) && got@ == names@,
        },
        header.opcode == Opcode::PutBlocks ==> match offered {
            Err(error) => plan == Err::<Plan<'a>, ProtoError>(error),
            Ok(request) => plan matches Ok(Plan::Put(got)) && got.parent == request.parent
                && got.names@ == request.names@ && got.blocks@.len() == request.blocks@.len() && (
            forall|i: int|
                0 <= i < request.blocks@.len() ==> (#[trigger] got.blocks@[i])@
                    == request.blocks@[i]@),
        },
{
    if header.opcode == Opcode::PutBlocks && offered is Ok {
        let request = offered->Ok_0;
        let got = plan->Ok_0->Put_0;
        assert(got@ == request@);
        let a = crate::message::contents_of(got.blocks@);
        let b = crate::message::contents_of(request.blocks@);
        assert(a == b && a.len() == got.blocks@.len() && b.len() == request.blocks@.len());
        assert forall|i: int| 0 <= i < request.blocks@.len() implies (#[trigger] got.blocks@[i])@
            == request.blocks@[i]@ by {
            assert(a[i] == b[i]);
        }
    }
}

/// What a client asks for in one frame is planned for whole: names that fit a
/// frame arrive as they were sent, and the server looks up or fetches all of
/// them.
pub proof fn lemma_what_is_asked_is_planned<'a>(
    header: &Header,
    names: &[BlockHash],
    sent: Vec<u8>,
    payload: &'a [u8],
    block_bytes: usize,
    per_frame: usize,
    plan: Result<Plan<'a>, ProtoError>,
)
    requires
        block_bytes + 20 <= usize::MAX,
        call_ensures(crate::message::encode_hash_request, (names,), sent),
        payload@ == sent@,
        call_ensures(crate::proto::blocks_per_frame, (block_bytes,), per_frame),
        call_ensures(crate::server::dispatch, (header, payload, block_bytes), plan),
        names@.len() <= per_frame,
    ensures
        header.opcode == Opcode::GetBlocks ==> (plan matches Ok(Plan::Get(got)) && got@ == names@),
        header.opcode == Opcode::MatchPrefix ==> (plan matches Ok(Plan::Match(got)) && got@
            == names@),
{
    crate::message::lemma_hash_request_round_trip(names@);
}

/// What a client offers in one frame is planned for whole: the parent, the names
/// and depths and the blocks arrive as they were sent.
pub proof fn lemma_what_is_offered_is_planned<'a>(
    header: &Header,
    parent: Option<BlockHash>,
    names: &[(BlockHash, u32)],
    blocks: &[&[u8]],
    sent: Vec<u8>,
    payload: &'a [u8],
    block_bytes: usize,
    plan: Result<Plan<'a>, ProtoError>,
)
    requires
        block_bytes + 20 <= usize::MAX,
        header.opcode == Opcode::PutBlocks,
        call_ensures(crate::message::encode_put, (parent, names, blocks), sent),
        payload@ == sent@,
        call_ensures(crate::server::dispatch, (header, payload, block_bytes), plan),
        names@.len() == blocks@.len() <= 256,
        forall|i: int| 0 <= i < blocks@.len() ==> (#[trigger] blocks@[i])@.len() == block_bytes,
    ensures
        plan matches Ok(Plan::Put(got)) && got.parent == parent && got.names@ == names@
            && got.blocks@.len() == blocks@.len() && forall|i: int|
            0 <= i < blocks@.len() ==> (#[trigger] got.blocks@[i])@ == blocks@[i]@,
{
    let contents = crate::message::contents_of(blocks@);
    let offer = crate::message::Offer { parent, names: names@, blocks: contents };
    assert forall|i: int| 0 <= i < contents.len() implies (#[trigger] contents[i]).len()
        == block_bytes by {
        assert(blocks@[i]@.len() == block_bytes);
    }
    crate::message::lemma_put_round_trip(offer, block_bytes as nat);
    let got = plan->Ok_0->Put_0;
    assert(got@ == offer);
    let a = crate::message::contents_of(got.blocks@);
    assert(a == contents && a.len() == got.blocks@.len());
    assert forall|i: int| 0 <= i < blocks@.len() implies (#[trigger] got.blocks@[i])@
        == blocks@[i]@ by {
        assert(a[i] == contents[i]);
    }
}

/// What each error says in words.
pub proof fn lemma_errors_are_spelled_out(error: ProtoError, message: String)
    requires
        call_ensures(ProtoError::message, (&error,), message),
    ensures
        match error {
            ProtoError::BadMagic(got) => message@ == "bad magic 0x"@ + crate::text::hex(
                got as nat,
                8,
            ),
            ProtoError::BadVersion(got) => message@ == "unsupported version "@
                + crate::text::decimal(got as nat),
            ProtoError::BadOpcode(got) => message@ == "unknown opcode "@ + crate::text::decimal(
                got as nat,
            ),
            ProtoError::PayloadTooLarge(len) => message@ == "payload "@ + crate::text::decimal(
                len as nat,
            ) + " over cap "@ + crate::text::decimal(67_108_864),
            ProtoError::TooManyBlocks(count) => message@ == crate::text::decimal(count as nat)
                + " blocks over cap "@ + crate::text::decimal(256),
            ProtoError::Truncated => message@ == "payload ended mid-field"@,
            ProtoError::TrailingBytes(count) => message@ == crate::text::decimal(count as nat)
                + " unread bytes after message"@,
            ProtoError::LayoutMismatch => message@ == "peer block layout does not match"@,
        },
{
}

/// A reader stands just past the text that it read. It stays where it was if
/// there was no length to read, behind the length if the text was cut off, and
/// behind the text if that was none.
pub proof fn lemma_reader_moves_past_texts<'a>(
    reader: &mut Reader<'a>,
    text: Result<String, ProtoError>,
)
    requires
        call_ensures(Reader::<'a>::string, (reader,), text),
    ensures
        ({
            let all = old(reader).rest();
            let n = all[0] * 0x100 + all[1];
            let now = final(reader).rest();
            if all.len() < 2 {
                text matches Err(ProtoError::Truncated) && now == all
            } else if all.len() < 2 + n {
                text matches Err(ProtoError::Truncated) && now == all.skip(2)
            } else if !vstd::utf8::valid_utf8(all.subrange(2, 2 + n)) {
                text matches Err(ProtoError::Truncated) && now == all.skip(2 + n)
            } else {
                &&& text matches Ok(text) && text@ == vstd::utf8::decode_utf8(
                    all.subrange(2, 2 + n),
                )
                &&& now == all.skip(2 + n)
            }
        }),
{
    let all = old(reader).rest();
    if all.len() >= 2 {
        let n = all[0] * 0x100 + all[1];
        assert(crate::proto::number(all, 2) == n) by {
            reveal_with_fuel(crate::bytes::be_value, 3);
            assert(crate::proto::head(all, 2).drop_last().drop_last().len() == 0);
        }
        assert(crate::proto::skip(all, 2) =~= all.skip(2));
        if all.len() >= 2 + n {
            assert(crate::proto::head(crate::proto::skip(all, 2), n as nat) =~= all.subrange(
                2,
                2 + n,
            ));
            assert(crate::proto::skip(all, (2 + n) as nat) =~= all.skip(2 + n));
        }
    }
}

/// A reader stands just past the names that it read. It stays where it was if
/// there was no count to read, behind the count if that was over the cap, and
/// behind the last whole name if the list was cut off.
pub proof fn lemma_reader_moves_past_names<'a>(
    reader: &mut Reader<'a>,
    hashes: Result<Vec<BlockHash>, ProtoError>,
)
    requires
        call_ensures(Reader::<'a>::hashes, (reader,), hashes),
    ensures
        ({
            let all = old(reader).rest();
            let count = quad(all, 0);
            let now = final(reader).rest();
            if all.len() < 4 {
                hashes matches Err(ProtoError::Truncated) && now == all
            } else if count > 256 {
                &&& hashes matches Err(ProtoError::TooManyBlocks(got)) && got == count
                &&& now == all.skip(4)
            } else if all.len() < 4 + 16 * count {
                &&& hashes matches Err(ProtoError::Truncated)
                &&& now.len() < 16
                &&& (all.len() - 4 - now.len()) % 16 == 0
                &&& now == all.skip(all.len() - now.len())
            } else {
                &&& hashes matches Ok(names)
                &&& names@.len() == count
                &&& now == all.skip(4 + 16 * count)
                &&& forall|i: int|
                    0 <= i < count ==> crate::bytes::be((#[trigger] names@[i])@ as nat, 16)
                        == all.subrange(4 + 16 * i, 20 + 16 * i)
            }
        }),
{
    let all = old(reader).rest();
    if all.len() >= 4 {
        lemma_quad_says(all, 0);
        let rest = crate::proto::skip(all, 4);
        let count = quad(all, 0);
        crate::bytes::lemma_spans();
        assert(crate::proto::skip(all, 4) =~= all.skip(4));
        if count <= 256 && all.len() >= 4 + 16 * count {
            let names = hashes->Ok_0;
            assert(crate::proto::skip(rest, (count * 16) as nat) =~= all.skip(4 + 16 * count));
            assert forall|i: int| 0 <= i < count implies crate::bytes::be(
                (#[trigger] names@[i])@ as nat,
                16,
            ) == all.subrange(4 + 16 * i, 20 + 16 * i) by {
                let part = rest.subrange(i * 16, i * 16 + 16);
                assert(part =~= all.subrange(4 + 16 * i, 20 + 16 * i));
                crate::bytes::lemma_be_value_bound(part);
                crate::bytes::lemma_be_of_value(part);
            }
        } else if count <= 256 {
            let read = rest.len() / 16 * 16;
            assert(final(reader).rest() =~= all.skip((4 + read) as int));
        }
    }
}

/// A reader stands just past the count that it read, within the cap or not.
pub proof fn lemma_reader_moves_past_counts<'a>(
    reader: &mut Reader<'a>,
    count: Result<usize, ProtoError>,
)
    requires
        call_ensures(Reader::<'a>::block_count, (reader,), count),
    ensures
        ({
            let all = old(reader).rest();
            if all.len() < 4 {
                count matches Err(ProtoError::Truncated) && final(reader).rest() == all
            } else {
                &&& final(reader).rest() == all.skip(4)
                &&& if quad(all, 0) > 256 {
                    count matches Err(ProtoError::TooManyBlocks(got)) && got == quad(all, 0)
                } else {
                    count matches Ok(got) && got == quad(all, 0)
                }
            }
        }),
{
    let all = old(reader).rest();
    if all.len() >= 4 {
        lemma_quad_says(all, 0);
        assert(crate::proto::skip(all, 4) =~= all.skip(4));
    }
}

/// What was put away is the next thing that is read: numbers in network order,
/// the most significant byte first, and nothing of what follows is touched.
pub proof fn lemma_reader_moves_past_numbers<'a>(
    reader: &mut Reader<'a>,
    value: Result<u32, ProtoError>,
)
    requires
        call_ensures(Reader::<'a>::u32, (reader,), value),
    ensures
        ({
            let all = old(reader).rest();
            if all.len() < 4 {
                value matches Err(ProtoError::Truncated) && final(reader).rest() == all
            } else {
                &&& value matches Ok(value) && value == quad(all, 0)
                &&& final(reader).rest() == all.skip(4)
            }
        }),
{
    let all = old(reader).rest();
    if all.len() >= 4 {
        lemma_quad_says(all, 0);
        assert(crate::proto::skip(all, 4) =~= all.skip(4));
    }
}

} // verus!
