//! What the server decides: what a request asks for, what it is answered, and
//! how work on the disk is shared out. Sockets, locks and files are left to
//! whoever runs it.

use vstd::prelude::*;

use crate::block::BlockHash;
use crate::evict::Costs;
use crate::message::{decode_put, encode_match, encode_report, encode_stats, frame, PutRequest};
use crate::proto::{blocks_per_frame, encode_info, Header, Opcode, ProtoError, ServerInfo, Writer};
use crate::store::{AdmitReport, FetchPart, KvStore};

verus! {

/// Enough queue depth for the drive to overlap requests, without handing the
/// blocking pool one thread per block.
pub const DEFAULT_PARALLEL_READS: usize = 8;

/// Blocks copied per writeback round. Enough to stay ahead of admissions
/// without holding the lock long while it picks them.
pub const DEFAULT_WRITEBACK_BATCH: usize = 32;

/// What a request asks for.
pub enum Plan<'a> {
    Info,
    Match(Vec<BlockHash>),
    /// Already cut down to what one frame can carry; the client asks past it.
    Get(Vec<BlockHash>),
    Put(PutRequest<'a>),
    Stats,
}

/// As many of `hashes` as one frame can answer.
pub open spec fn one_frame(hashes: Seq<BlockHash>, block_bytes: nat) -> Seq<BlockHash> {
    let capacity = crate::proto::frame_capacity(block_bytes);
    if hashes.len() <= capacity {
        hashes
    } else {
        hashes.take(capacity as int)
    }
}

/// What a request asks for, or what is wrong with it.
pub fn dispatch<'a>(header: &Header, payload: &'a [u8], block_bytes: usize) -> (plan: Result<
    Plan<'a>,
    ProtoError,
>)
    requires
        block_bytes + crate::proto::PUT_PER_BLOCK <= usize::MAX,
    ensures
        match header.opcode {
            Opcode::Info => plan matches Ok(Plan::Info),
            Opcode::MatchPrefix => match crate::message::hash_request_of(payload@) {
                Ok(hashes) => plan matches Ok(Plan::Match(got)) && got@ == hashes,
                Err(error) => plan == Err::<Plan<'a>, ProtoError>(error),
            },
            Opcode::GetBlocks => match crate::message::hash_request_of(payload@) {
                Ok(hashes) => plan matches Ok(Plan::Get(got)) && got@ == one_frame(
                    hashes,
                    block_bytes as nat,
                ),
                Err(error) => plan == Err::<Plan<'a>, ProtoError>(error),
            },
            Opcode::PutBlocks => match crate::message::put_of(payload@, block_bytes as nat) {
                Ok(offer) => plan matches Ok(Plan::Put(got)) && got@ == offer,
                Err(error) => plan == Err::<Plan<'a>, ProtoError>(error),
            },
            Opcode::Stats => plan matches Ok(Plan::Stats),
            Opcode::Error => plan == Err::<Plan<'a>, ProtoError>(ProtoError::BadOpcode(0x7F)),
        },
{
    match header.opcode {
        Opcode::Info => Ok(Plan::Info),
        Opcode::MatchPrefix => match crate::message::read_hash_request(payload) {
            Err(error) => Err(error),
            Ok(hashes) => Ok(Plan::Match(hashes)),
        },
        Opcode::GetBlocks => match crate::message::read_hash_request(payload) {
            Err(error) => Err(error),
            Ok(hashes) => {
                let mut hashes = hashes;
                let capacity: usize = blocks_per_frame(block_bytes);
                if hashes.len() > capacity {
                    let ghost all = hashes@;
                    hashes.truncate(capacity);
                    assert(hashes@ =~= all.take(capacity as int));
                }
                Ok(Plan::Get(hashes))
            },
        },
        Opcode::PutBlocks => match decode_put(payload, block_bytes) {
            Err(error) => Err(error),
            Ok(request) => Ok(Plan::Put(request)),
        },
        Opcode::Stats => Ok(Plan::Stats),
        Opcode::Error => Err(ProtoError::BadOpcode(Opcode::Error.code())),
    }
}

/// The answer to `Info`.
pub fn answer_info<C: Costs>(store: &KvStore<C>, request: &Header) -> (bytes: Vec<u8>)
    ensures
        bytes@ == crate::message::frame_bytes(
            request.opcode,
            request.request_id,
            crate::proto::info_bytes(store.model(), store.shape()),
        ),
{
    let info = ServerInfo { model_id: store.model_id().to_owned(), layout: *store.layout() };
    let payload = encode_info(&info);
    frame(request.opcode, request.request_id, payload.as_slice())
}

/// The answer to `MatchPrefix`, which counts as a use of what it finds.
pub fn answer_match<C: Costs>(
    store: &mut KvStore<C>,
    request: &Header,
    hashes: &[BlockHash],
) -> (bytes: Vec<u8>)
    requires
        old(store).wf(),
    ensures
        final(store).wf(),
        exists|matched: usize|
            {
                &&& #[trigger] old(store).probes(final(store), hashes@, matched as nat)
                &&& bytes@ == crate::message::frame_bytes(
                    request.opcode,
                    request.request_id,
                    crate::bytes::be(matched as u32 as nat, 4),
                )
            },
{
    let matched: usize = store.match_prefix(hashes);
    let payload = encode_match(matched);
    assert(old(store).probes(store, hashes@, matched as nat));
    frame(request.opcode, request.request_id, payload.as_slice())
}

/// The answer to `PutBlocks`.
pub fn answer_put(request: &Header, report: &AdmitReport) -> (bytes: Vec<u8>)
    ensures
        bytes@ == crate::message::frame_bytes(
            request.opcode,
            request.request_id,
            crate::message::report_bytes(*report),
        ),
{
    let payload = encode_report(report);
    frame(request.opcode, request.request_id, payload.as_slice())
}

/// The answer to `Stats`.
pub fn answer_stats<C: Costs>(store: &KvStore<C>, request: &Header) -> (bytes: Vec<u8>)
    ensures
        bytes@ == crate::message::frame_bytes(
            request.opcode,
            request.request_id,
            crate::message::counter_bytes(
                crate::message::counter_values(
                    store.counters(),
                    store.entries().len() as usize as u64,
                ),
            ),
        ),
{
    let payload = encode_stats(&store.stats(), store.resident_blocks());
    frame(request.opcode, request.request_id, payload.as_slice())
}

/// The answer to a request that cannot be served. It carries the request's
/// id, so the peer knows which one it was.
pub fn answer_error(request_id: u32, error: &ProtoError) -> (bytes: Vec<u8>)
    ensures
        bytes@ == crate::message::frame_bytes(
            Opcode::Error,
            request_id,
            crate::proto::string_bytes(crate::proto::error_text(*error)),
        ),
{
    let message = error.message();
    let mut writer = Writer::new();
    writer.string(message.as_str());
    assert(writer@ =~= crate::proto::string_bytes(crate::proto::error_text(*error)));
    let payload = writer.finish();
    frame(Opcode::Error, request_id, payload.as_slice())
}

proof fn lemma_decimal_is_short(value: nat, width: nat)
    requires
        value < crate::bytes::span(width),
    ensures
        crate::text::decimal(value).len() <= 3 * width + 1,
        vstd::utf8::is_ascii_chars(crate::text::decimal(value)),
    decreases value,
{
    if value >= 10 {
        if width == 0 {
            assert(false);
        }
        // Three decimal digits take at least a factor of 256 off.
        if value < 100 {
            assert(crate::text::decimal(value / 10).len() == 1);
        } else if value < 1000 {
            reveal_with_fuel(crate::text::decimal, 3);
        } else {
            let next = value / 1000;
            lemma_decimal_is_short(next, (width - 1) as nat);
            reveal_with_fuel(crate::text::decimal, 4);
            assert(value / 10 / 10 / 10 == next);
        }
    }
}

proof fn lemma_hex_is_plain(value: nat, width: nat)
    ensures
        crate::text::hex(value, width).len() == width,
        vstd::utf8::is_ascii_chars(crate::text::hex(value, width)),
    decreases width,
{
    if width > 0 {
        lemma_hex_is_plain(value / 16, (width - 1) as nat);
    }
}

proof fn lemma_error_text_is_short(error: ProtoError)
    ensures
        crate::proto::error_text(error).len() <= 200,
        vstd::utf8::is_ascii_chars(crate::proto::error_text(error)),
{
    crate::bytes::lemma_spans();
    match error {
        ProtoError::BadMagic(got) => {
            reveal_strlit("bad magic 0x");
            lemma_hex_is_plain(got as nat, 8);
        },
        ProtoError::BadVersion(got) => {
            reveal_strlit("unsupported version ");
            lemma_decimal_is_short(got as nat, 1);
        },
        ProtoError::BadOpcode(got) => {
            reveal_strlit("unknown opcode ");
            lemma_decimal_is_short(got as nat, 1);
        },
        ProtoError::PayloadTooLarge(len) => {
            reveal_strlit("payload ");
            reveal_strlit(" over cap ");
            lemma_decimal_is_short(len as nat, 4);
            lemma_decimal_is_short(crate::proto::MAX_PAYLOAD as nat, 4);
        },
        ProtoError::TooManyBlocks(count) => {
            reveal_strlit(" blocks over cap ");
            lemma_decimal_is_short(count as nat, 8);
            lemma_decimal_is_short(crate::proto::MAX_BLOCKS_PER_REQUEST as nat, 2);
        },
        ProtoError::Truncated => {
            reveal_strlit("payload ended mid-field");
        },
        ProtoError::TrailingBytes(count) => {
            reveal_strlit(" unread bytes after message");
            lemma_decimal_is_short(count as nat, 8);
        },
        ProtoError::LayoutMismatch => {
            reveal_strlit("peer block layout does not match");
        },
    }
}

/// A request that is refused is answered by a well-formed frame that says
/// `Error`, carries the id of that request, and spells the error out.
pub proof fn lemma_refusal_is_attributable(request_id: u32, error: ProtoError)
    ensures
        ({
            let payload = crate::proto::string_bytes(crate::proto::error_text(error));
            let bytes = crate::message::frame_bytes(Opcode::Error, request_id, payload);
            let header = Header {
                opcode: Opcode::Error,
                flags: 0,
                request_id,
                payload_len: payload.len() as u32,
            };
            &&& crate::proto::header_of(bytes.take(16)) == Ok::<Header, ProtoError>(header)
            &&& bytes.skip(16) == payload
            &&& header.payload_len == payload.len()
            &&& crate::proto::string_of(payload) == Ok::<(Seq<char>, Seq<u8>), ProtoError>(
                (crate::proto::error_text(error), Seq::empty()),
            )
        }),
{
    let text = crate::proto::error_text(error);
    let payload = crate::proto::string_bytes(text);
    let bytes = crate::message::frame_bytes(Opcode::Error, request_id, payload);
    let header = Header {
        opcode: Opcode::Error,
        flags: 0,
        request_id,
        payload_len: payload.len() as u32,
    };
    lemma_error_text_is_short(error);
    vstd::utf8::is_ascii_chars_encode_utf8(text);
    crate::bytes::lemma_be_len(vstd::utf8::encode_utf8(text).len() as u16 as nat, 2);
    crate::proto::lemma_header_round_trip(header);
    crate::proto::lemma_string_round_trip(text, Seq::empty());
    assert(payload + Seq::<u8>::empty() =~= payload);
    assert(bytes.take(16) =~= crate::proto::header_bytes(header));
    assert(bytes.skip(16) =~= payload);
}

/// An answer is a well-formed frame that echoes the opcode and the id of its
/// request, so long as its payload is within the cap.
pub proof fn lemma_answer_echoes_request(opcode: Opcode, request_id: u32, payload: Seq<u8>)
    requires
        payload.len() <= crate::proto::MAX_PAYLOAD,
    ensures
        ({
            let bytes = crate::message::frame_bytes(opcode, request_id, payload);
            &&& crate::proto::header_of(bytes.take(16)) == Ok::<Header, ProtoError>(
                Header { opcode, flags: 0, request_id, payload_len: payload.len() as u32 },
            )
            &&& bytes.skip(16) == payload
        }),
{
    let header = Header { opcode, flags: 0, request_id, payload_len: payload.len() as u32 };
    let bytes = crate::message::frame_bytes(opcode, request_id, payload);
    crate::proto::lemma_header_round_trip(header);
    assert(bytes.take(16) =~= crate::proto::header_bytes(header));
    assert(bytes.skip(16) =~= payload);
}

/// The least share that hands `len` items to at most `parallel` workers.
pub open spec fn share(len: nat, parallel: nat) -> nat {
    if len == 0 {
        1
    } else {
        ((len + parallel - 1) / parallel as int) as nat
    }
}

/// `parallel` workers that take a share each take everything, and with one
/// item less each they would not.
pub proof fn lemma_shares_suffice(len: nat, parallel: nat)
    requires
        parallel > 0,
    ensures
        share(len, parallel) >= 1,
        share(len, parallel) * parallel >= len,
        len > 0 ==> (share(len, parallel) - 1) * parallel < len,
{
    if len > 0 {
        let top = len + parallel - 1;
        let each = share(len, parallel);
        assert(each >= 1 && each * parallel >= len && (each - 1) * parallel < len)
            by (nonlinear_arith)
            requires
                each == top / parallel as int,
                top == len + parallel - 1,
                parallel > 0,
                len > 0,
        ;
    }
}

/// How many items each of `parallel` workers takes.
pub fn stripe_len(len: usize, parallel: usize) -> (stripe: usize)
    requires
        parallel > 0,
    ensures
        stripe == share(len as nat, parallel as nat),
        stripe >= 1,
{
    proof {
        lemma_shares_suffice(len as nat, parallel as nat);
    }
    if len == 0 {
        return 1;
    }
    proof {
        let whole = (len - 1) / parallel as int;
        assert(whole + 1 == (len + parallel - 1) / parallel as int) by (nonlinear_arith)
            requires
                whole == (len - 1) / parallel as int,
                parallel > 0,
                len > 0,
        ;
        assert(whole <= len - 1) by (nonlinear_arith)
            requires
                whole == (len - 1) / parallel as int,
                parallel > 0,
                len > 0,
        ;
    }
    (len - 1) / parallel + 1
}

/// Everything in the stripes, in order.
pub open spec fn stacked<T>(stripes: Seq<Vec<T>>) -> Seq<T>
    decreases stripes.len(),
{
    if stripes.len() == 0 {
        Seq::empty()
    } else {
        stacked(stripes.drop_last()) + stripes.last()@
    }
}

/// Cut a list into stripes of `stripe` items, the last one shorter if need be.
pub fn into_stripes<T>(items: Vec<T>, stripe: usize) -> (stripes: Vec<Vec<T>>)
    requires
        stripe > 0,
    ensures
        stacked(stripes@) == items@,
        forall|i: int| 0 <= i < stripes@.len() ==> 0 < (#[trigger] stripes@[i])@.len() <= stripe,
        forall|i: int| 0 <= i < stripes@.len() - 1 ==> (#[trigger] stripes@[i])@.len() == stripe,
{
    let ghost all = items@;
    let mut stripes: Vec<Vec<T>> = Vec::new();
    let mut rest: Vec<T> = items;
    proof {
        assert(stacked(stripes@) + rest@ =~= all);
    }
    while rest.len() > 0
        invariant
            stripe > 0,
            stacked(stripes@) + rest@ == all,
            forall|i: int|
                0 <= i < stripes@.len() ==> 0 < (#[trigger] stripes@[i])@.len() <= stripe,
            forall|i: int|
                0 <= i < stripes@.len() - 1 ==> (#[trigger] stripes@[i])@.len() == stripe,
            rest@.len() > 0 && stripes@.len() > 0 ==> stripes@.last()@.len() == stripe,
        decreases rest@.len(),
    {
        let cut: usize = if rest.len() < stripe {
            rest.len()
        } else {
            stripe
        };
        let ghost before = rest@;
        let ghost done = stripes@;
        let tail = rest.split_off(cut);
        let chunk = rest;
        proof {
            assert(chunk@ + tail@ =~= before);
            assert(done.push(chunk).drop_last() =~= done);
            assert(stacked(done.push(chunk)) + tail@ =~= all);
        }
        stripes.push(chunk);
        rest = tail;
    }
    assert(stacked(stripes@) =~= all);
    stripes
}

/// Put stripes back together, in order.
pub fn from_stripes<T>(stripes: Vec<Vec<T>>) -> (items: Vec<T>)
    ensures
        items@ == stacked(stripes@),
{
    let mut items: Vec<T> = Vec::new();
    let mut rest: Vec<Vec<T>> = stripes;
    let ghost all = rest@;
    let ghost mut done: int = 0;
    proof {
        assert(all.take(0) =~= Seq::empty());
        assert(items@ =~= stacked(all.take(0)));
        assert(rest@ =~= all.skip(0));
    }
    while rest.len() > 0
        invariant
            0 <= done <= all.len(),
            rest@ == all.skip(done),
            items@ == stacked(all.take(done)),
        decreases rest@.len(),
    {
        let mut stripe = rest.remove(0);
        proof {
            let taken = all.take(done + 1);
            assert(taken.drop_last() =~= all.take(done));
            assert(taken.last() == stripe);
        }
        items.append(&mut stripe);
        proof {
            done = done + 1;
            assert(rest@ =~= all.skip(done));
        }
    }
    assert(all.take(done) =~= all);
    items
}

/// Whether any part of a fetch still has to come off disk.
pub fn needs_disk(parts: &[FetchPart]) -> (needs: bool)
    ensures
        needs == exists|i: int| 0 <= i < parts@.len() && (#[trigger] parts@[i]) is Pending,
{
    let mut i: usize = 0;
    while i < parts.len()
        invariant
            i <= parts@.len(),
            forall|k: int| 0 <= k < i ==> !((#[trigger] parts@[k]) is Pending),
        decreases parts.len() - i,
    {
        if let FetchPart::Pending(_) = &parts[i] {
            assert(parts@[i as int] is Pending);
            return true;
        }
        i = i + 1;
    }
    false
}

/// How many blocks one writeback round may hold.
///
/// A job holds a pin, and pinned blocks cannot be evicted. Taking too large a
/// share of RAM would starve the fetch path, which needs a free slot per
/// block it promotes.
pub fn writeback_budget(batch: usize, ram_capacity: usize) -> (budget: usize)
    ensures
        budget == (if batch < ram_capacity / 4 {
            if batch > 1 {
                batch
            } else {
                1
            }
        } else if ram_capacity / 4 > 1 {
            ram_capacity / 4
        } else {
            1
        }),
        budget >= 1,
        budget > 1 ==> budget <= batch && 4 * budget <= ram_capacity,
{
    let quarter: usize = ram_capacity / 4;
    let budget: usize = if batch < quarter {
        batch
    } else {
        quarter
    };
    if budget > 1 {
        budget
    } else {
        1
    }
}

/// Work is shared out evenly: no worker takes more than its share, the shares
/// of all of them cover everything, and with one item less each they would not.
pub proof fn lemma_work_is_shared_out(len: usize, parallel: usize, stripe: usize)
    requires
        parallel > 0,
        call_ensures(stripe_len, (len, parallel), stripe),
    ensures
        stripe >= 1,
        stripe * parallel >= len,
        len > 0 ==> (stripe - 1) * parallel < len,
        len == 0 ==> stripe == 1,
{
    lemma_shares_suffice(len as nat, parallel as nat);
}

/// Stripe `k` holds the items from `k` stripes on, in order, and they put
/// together again to just what was taken apart.
pub proof fn lemma_stripes_keep_their_order<T>(
    items: Vec<T>,
    stripe: usize,
    stripes: Vec<Vec<T>>,
    again: Vec<T>,
    k: int,
    p: int,
)
    requires
        stripe > 0,
        call_ensures(into_stripes::<T>, (items, stripe), stripes),
        call_ensures(from_stripes::<T>, (stripes,), again),
        0 <= k < stripes@.len(),
        0 <= p < stripes@[k]@.len(),
    ensures
        again@ == items@,
        k * stripe + p < items@.len(),
        stripes@[k]@[p] == items@[k * stripe + p],
        p < stripe,
        k < stripes@.len() - 1 ==> stripes@[k]@.len() == stripe,
{
    assert(stripes@[k]@.len() <= stripe);
    assert forall|i: int| 0 <= i < k implies (#[trigger] stripes@[i])@.len() == stripe by {}
    lemma_stacked_at(stripes@, stripe as int, k, p);
}

proof fn lemma_stacked_at<T>(stripes: Seq<Vec<T>>, stripe: int, k: int, p: int)
    requires
        0 <= k < stripes.len(),
        0 <= p < stripes[k]@.len(),
        forall|i: int| 0 <= i < stripes.len() - 1 ==> (#[trigger] stripes[i])@.len() == stripe,
    ensures
        k * stripe + p < stacked(stripes).len(),
        stacked(stripes)[k * stripe + p] == stripes[k]@[p],
    decreases stripes.len(),
{
    let before = stripes.drop_last();
    assert forall|i: int| 0 <= i < before.len() implies (#[trigger] before[i])@.len() == stripe by {
        assert(stripes[i]@.len() == stripe);
    }
    lemma_stacked_len(before, stripe);
    if k < before.len() {
        lemma_stacked_at(before, stripe, k, p);
        assert(before[k] == stripes[k]);
    } else {
        assert(k == before.len());
    }
    assert(0 <= k * stripe) by (nonlinear_arith)
        requires
            k >= 0,
            stripe >= 0 || k == 0,
    ;
}

proof fn lemma_stacked_len<T>(stripes: Seq<Vec<T>>, stripe: int)
    requires
        forall|i: int| 0 <= i < stripes.len() ==> (#[trigger] stripes[i])@.len() == stripe,
    ensures
        stacked(stripes).len() == stripes.len() * stripe,
        stripes.len() > 0 ==> stripe >= 0,
    decreases stripes.len(),
{
    if stripes.len() > 0 {
        let before = stripes.drop_last();
        let count = stripes.len() as int;
        assert(stripes[count - 1]@.len() == stripe);
        lemma_stacked_len(before, stripe);
        assert(count * stripe == (count - 1) * stripe + stripe) by (nonlinear_arith);
    } else {
        assert(0 * stripe == 0);
    }
}

/// A round of writeback takes at least one block and no more than it was told
/// to; beyond one it takes no more than a quarter of memory, and just as much
/// as both allow.
pub proof fn lemma_writeback_spares_memory(batch: usize, ram_capacity: usize, budget: usize)
    requires
        call_ensures(writeback_budget, (batch, ram_capacity), budget),
    ensures
        budget >= 1,
        budget > 1 ==> budget <= batch && 4 * budget <= ram_capacity,
        budget < batch ==> 4 * (budget + 1) > ram_capacity,
{
}

/// An answer to a lookup echoes the request and says how many of the leading
/// blocks are held.
pub proof fn lemma_match_is_answered<C: Costs>(
    store: &mut KvStore<C>,
    request: &Header,
    hashes: &[BlockHash],
    bytes: Vec<u8>,
)
    requires
        call_ensures(answer_match::<C>, (store, request, hashes), bytes),
        hashes@.len() <= u32::MAX,
    ensures
        bytes@.len() == 20,
        bytes@[5] == opcode_number(request.opcode),
        crate::wire::quad(bytes@, 8) == request.request_id,
        crate::wire::quad(bytes@, 12) == 4,
        ({
            let matched = crate::wire::quad(bytes@, 16);
            &&& 0 <= matched <= hashes@.len()
            &&& forall|i: int|
                0 <= i < matched ==> old(store).entries().dom().contains((#[trigger] hashes@[i])@)
            &&& matched < hashes@.len() ==> !old(store).entries().dom().contains(
                hashes@[matched]@,
            )
        }),
{
    let matched = choose|matched: usize|
        {
            &&& #[trigger] old(store).probes(final(store), hashes@, matched as nat)
            &&& bytes@ == crate::message::frame_bytes(
                request.opcode,
                request.request_id,
                crate::bytes::be(matched as u32 as nat, 4),
            )
        };
    assert(old(store).probes(final(store), hashes@, matched as nat));
    crate::wire::lemma_short_frame(request.opcode, request.request_id, matched as u32, bytes@);
}

/// A refusal says `Error`, carries the id of the request, and says in words what
/// was wrong.
pub proof fn lemma_refusal_is_told(request_id: u32, error: ProtoError, bytes: Vec<u8>)
    requires
        call_ensures(answer_error, (request_id, &error), bytes),
    ensures
        ({
            let words = vstd::utf8::encode_utf8(crate::proto::error_text(error));
            &&& bytes@[5] == 0x7F
            &&& crate::wire::quad(bytes@, 8) == request_id
            &&& crate::wire::quad(bytes@, 12) == 2 + words.len()
            &&& bytes@.len() == 18 + words.len()
            &&& bytes@[16] * 0x100 + bytes@[17] == words.len()
            &&& bytes@.skip(18) == words
        }),
{
    let text = crate::proto::error_text(error);
    let words = vstd::utf8::encode_utf8(text);
    lemma_error_text_is_short(error);
    vstd::utf8::is_ascii_chars_encode_utf8(text);
    let len = crate::bytes::be(words.len(), 2);
    crate::bytes::lemma_be_len(words.len(), 2);
    let payload = len + words;
    crate::wire::lemma_frame_fields(Opcode::Error, request_id, payload, bytes@);
    assert(len[0] * 0x100 + len[1] == words.len()) by {
        reveal_with_fuel(crate::bytes::be, 3);
    }
    assert(bytes@[16] == payload[0] && bytes@[17] == payload[1]) by {
        assert(bytes@.skip(16)[0] == bytes@[16] && bytes@.skip(16)[1] == bytes@[17]);
    }
    assert(bytes@.skip(18) =~= words) by {
        assert(bytes@.skip(18) =~= bytes@.skip(16).skip(2));
    }
}

/// Every answer carries the opcode and the id of its request, says how long it
/// is, and then holds what the store has to say: its model and layout, what
/// became of an offer, or its counters and how many blocks it holds.
pub proof fn lemma_answers_say_what_was_asked<C: Costs>(
    store: &KvStore<C>,
    request: &Header,
    model_id: String,
    info: Vec<u8>,
    info_answer: Vec<u8>,
    report: &AdmitReport,
    put: Vec<u8>,
    put_answer: Vec<u8>,
    stats: Vec<u8>,
    stats_answer: Vec<u8>,
)
    requires
        model_id@ == store.model(),
        call_ensures(encode_info, (&ServerInfo { model_id, layout: store.shape() },), info),
        call_ensures(answer_info::<C>, (store, request), info_answer),
        call_ensures(encode_report, (report,), put),
        call_ensures(answer_put, (request, report), put_answer),
        call_ensures(
            encode_stats,
            (&store.counters(), store.entries().len() as usize),
            stats,
        ),
        call_ensures(answer_stats::<C>, (store, request), stats_answer),
        info@.len() <= u32::MAX,
    ensures
        info_answer@.skip(16) == info@,
        info_answer@[5] == opcode_number(request.opcode),
        crate::wire::quad(info_answer@, 8) == request.request_id,
        crate::wire::quad(info_answer@, 12) == info@.len(),
        put_answer@.skip(16) == put@,
        put_answer@[5] == opcode_number(request.opcode),
        crate::wire::quad(put_answer@, 8) == request.request_id,
        crate::wire::quad(put_answer@, 12) == 12,
        stats_answer@.skip(16) == stats@,
        stats_answer@[5] == opcode_number(request.opcode),
        crate::wire::quad(stats_answer@, 8) == request.request_id,
        crate::wire::quad(stats_answer@, 12) == 104,
{
    crate::wire::lemma_frame_fields(request.opcode, request.request_id, info@, info_answer@);
    crate::wire::lemma_frame_fields(request.opcode, request.request_id, put@, put_answer@);
    crate::wire::lemma_frame_fields(request.opcode, request.request_id, stats@, stats_answer@);
    crate::bytes::lemma_be_len(report.inserted as u32 as nat, 4);
    crate::bytes::lemma_be_len(report.deduped as u32 as nat, 4);
    crate::bytes::lemma_be_len(report.dropped as u32 as nat, 4);
    crate::wire::lemma_stats_over_the_wire(
        store.counters(),
        store.entries().len() as usize,
        stats,
    );
}

/// The number of an opcode on the wire.
pub open spec fn opcode_number(opcode: Opcode) -> int {
    match opcode {
        Opcode::Info => 1,
        Opcode::MatchPrefix => 2,
        Opcode::GetBlocks => 3,
        Opcode::PutBlocks => 4,
        Opcode::Stats => 5,
        Opcode::Error => 0x7F,
    }
}

} // verus!
