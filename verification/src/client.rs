//! What the client decides: which frames a request takes, what a response has
//! to look like, and when to stop asking. The socket is left to whoever runs
//! it.

use vstd::prelude::*;

use crate::block::{BlockHash, BlockLayout};
use crate::proto::{Header, Opcode, ProtoError, Reader, ServerInfo, MAX_BLOCKS_PER_REQUEST};
use crate::store::AdmitReport;
use crate::text::Text;

verus! {

/// The id after `id`. Zero is never used.
pub fn next_request_id(id: u32) -> (next: u32)
    ensures
        next == (if id == u32::MAX {
            1
        } else {
            (id + 1) as u32
        }),
        next > 0,
{
    if id == u32::MAX {
        1
    } else {
        id + 1
    }
}

/// Why a response is not the answer that was asked for.
pub enum ResponseError {
    /// It answers another request.
    WrongId { got: u32, wanted: u32 },
    /// The server refused, and said why.
    Refused(String),
    /// It cannot be read.
    Malformed(ProtoError),
}

impl ResponseError {
    /// What the error says.
    pub fn message(&self) -> (message: String)
        ensures
            message@ == (match *self {
                ResponseError::WrongId { got, wanted } => "response id "@ + crate::text::decimal(
                    got as nat,
                ) + " for request "@ + crate::text::decimal(wanted as nat),
                ResponseError::Refused(reason) => reason@,
                ResponseError::Malformed(error) => crate::proto::error_text(error),
            }),
    {
        match self {
            ResponseError::WrongId { got, wanted } => {
                let text = Text::new().push_text("response id ").push_decimal(
                    *got as u64,
                ).push_text(" for request ").push_decimal(*wanted as u64);
                assert(text@ =~= "response id "@ + crate::text::decimal(*got as nat)
                    + " for request "@ + crate::text::decimal(*wanted as nat));
                text.finish()
            },
            ResponseError::Refused(reason) => reason.clone(),
            ResponseError::Malformed(error) => error.message(),
        }
    }
}

/// Whether a response answers the request with that id. One that says `Error`
/// answers it with the reason for the refusal.
pub fn check_response(request_id: u32, response: &Header, body: &[u8]) -> (checked: Result<
    (),
    ResponseError,
>)
    ensures
        match checked {
            Ok(()) => response.request_id == request_id && response.opcode != Opcode::Error,
            Err(ResponseError::WrongId { got, wanted }) => {
                &&& response.request_id != request_id
                &&& got == response.request_id
                &&& wanted == request_id
            },
            Err(ResponseError::Refused(reason)) => {
                &&& response.request_id == request_id
                &&& response.opcode == Opcode::Error
                &&& crate::proto::string_of(body@) matches Ok((text, _)) && text == reason@
            },
            Err(ResponseError::Malformed(error)) => {
                &&& response.request_id == request_id
                &&& response.opcode == Opcode::Error
                &&& crate::proto::string_of(body@) == Err::<(Seq<char>, Seq<u8>), ProtoError>(error)
            },
        },
{
    if response.request_id != request_id {
        return Err(ResponseError::WrongId { got: response.request_id, wanted: request_id });
    }
    if response.opcode == Opcode::Error {
        let mut reader = Reader::new(body);
        return match reader.string() {
            Ok(reason) => Err(ResponseError::Refused(reason)),
            Err(error) => Err(ResponseError::Malformed(error)),
        };
    }
    Ok(())
}

/// Refuse a server whose layout is not the one we name blocks under: names
/// only mean anything under a matching layout.
pub fn expect_layout(info: &ServerInfo, layout: &BlockLayout) -> (checked: Result<(), ProtoError>)
    ensures
        checked == (if info.layout == *layout {
            Ok::<(), ProtoError>(())
        } else {
            Err(ProtoError::LayoutMismatch)
        }),
{
    if info.layout == *layout {
        Ok(())
    } else {
        Err(ProtoError::LayoutMismatch)
    }
}

/// A lookup that takes as many frames as it needs: one frame names at most
/// `MAX_BLOCKS_PER_REQUEST` blocks.
pub struct MatchRun {
    total: usize,
    matched: usize,
    ended: bool,
}

impl MatchRun {
    /// Blocks asked about in all.
    pub closed spec fn total(&self) -> nat {
        self.total as nat
    }

    /// Leading blocks that the server has been found to hold so far.
    pub closed spec fn matched(&self) -> nat {
        self.matched as nat
    }

    /// Whether the answer is known.
    pub closed spec fn ended(&self) -> bool {
        self.ended
    }

    pub open spec fn wf(&self) -> bool {
        !self.ended() ==> self.matched() <= self.total()
    }

    /// Blocks the next frame asks about.
    pub open spec fn asks(&self) -> nat {
        if self.total() - self.matched() < MAX_BLOCKS_PER_REQUEST {
            (self.total() - self.matched()) as nat
        } else {
            MAX_BLOCKS_PER_REQUEST as nat
        }
    }

    /// The run once a frame has been answered with `found` blocks. A frame
    /// whose blocks are not all held, or the last one, settles it.
    pub open spec fn learns(&self, before: &Self, found: nat) -> bool {
        &&& self.total() == before.total()
        &&& self.matched() == capped(before.matched() as int, found as int)
        &&& self.ended() == (found < MAX_BLOCKS_PER_REQUEST || self.matched() >= self.total())
    }

    /// How many of the next frame's blocks a server holds that holds the first
    /// `resident` of all.
    pub open spec fn answer(&self, resident: nat) -> nat {
        if resident - self.matched() < self.asks() {
            (resident - self.matched()) as nat
        } else {
            self.asks()
        }
    }

    /// The `k`-th frame of a lookup has been answered by such a server.
    pub open spec fn is_answered(runs: Seq<Self>, k: int, resident: nat) -> bool {
        !runs[k].ended() && runs[k + 1].learns(&runs[k], runs[k].answer(resident))
    }

    pub fn new(total: usize) -> (run: Self)
        ensures
            run.wf(),
            run.total() == total,
            run.matched() == 0,
            !run.ended(),
    {
        MatchRun { total, matched: 0, ended: false }
    }

    /// The blocks to ask about next, from the first to before the second;
    /// none once the answer is known. There is always a first frame, though
    /// it may name no block.
    pub fn next(&self) -> (range: Option<(usize, usize)>)
        requires
            self.wf(),
        ensures
            match range {
                Some((start, end)) => {
                    &&& !self.ended()
                    &&& start == self.matched()
                    &&& end == self.matched() + self.asks()
                    &&& end <= self.total()
                },
                None => self.ended(),
            },
    {
        if self.ended {
            return None;
        }
        if self.total - self.matched < MAX_BLOCKS_PER_REQUEST {
            Some((self.matched, self.total))
        } else {
            Some((self.matched, self.matched + MAX_BLOCKS_PER_REQUEST))
        }
    }

    /// Record how many of a frame's blocks the server holds.
    pub fn note(&mut self, found: usize)
        requires
            old(self).wf(),
        ensures
            final(self).wf(),
            final(self).learns(old(self), found as nat),
    {
        self.matched = self.matched.saturating_add(found);
        self.ended = found < MAX_BLOCKS_PER_REQUEST || self.matched >= self.total;
    }

    /// How many leading blocks the server holds, as far as it has been asked.
    pub fn found(&self) -> (matched: usize)
        ensures
            matched == self.matched(),
    {
        self.matched
    }

    /// One frame of a lookup: where it ends the lookup, exactly the blocks that
    /// the server holds have been found, and where it does not, a whole frame
    /// more of them.
    pub proof fn lemma_frame_finds_its_share(before: &Self, after: &Self, resident: nat)
        requires
            before.wf(),
            !before.ended(),
            before.matched() <= resident <= before.total(),
            after.learns(before, before.answer(resident)),
        ensures
            after.wf(),
            after.matched() == before.matched() + before.answer(resident),
            after.matched() <= resident,
            after.ended() ==> after.matched() == resident,
            !after.ended() ==> after.matched() == before.matched() + MAX_BLOCKS_PER_REQUEST,
    {
    }

    /// A lookup longer than one frame comes out whole: however many frames it
    /// took, one that has ended has found exactly the leading run that the
    /// server holds, and one that has not has found a frame's worth with each.
    pub proof fn lemma_frames_find_the_whole_run(runs: Seq<Self>, resident: nat)
        requires
            runs.len() > 0,
            runs[0].wf(),
            runs[0].matched() == 0,
            !runs[0].ended(),
            resident <= runs[0].total(),
            forall|k: int|
                0 <= k < runs.len() - 1 ==> #[trigger] Self::is_answered(runs, k, resident),
        ensures
            runs.last().wf(),
            runs.last().total() == runs[0].total(),
            runs.last().matched() <= resident,
            runs.last().ended() ==> runs.last().matched() == resident,
            !runs.last().ended() ==> runs.last().matched() == (runs.len() - 1)
                * MAX_BLOCKS_PER_REQUEST,
        decreases runs.len(),
    {
        if runs.len() > 1 {
            let earlier = runs.drop_last();
            assert forall|k: int| 0 <= k < earlier.len() - 1 implies #[trigger] Self::is_answered(
                earlier,
                k,
                resident,
            ) by {
                assert(Self::is_answered(runs, k, resident));
            }
            Self::lemma_frames_find_the_whole_run(earlier, resident);
            assert(Self::is_answered(runs, runs.len() - 2, resident));
            Self::lemma_frame_finds_its_share(&earlier.last(), &runs.last(), resident);
        }
    }
}

/// A fetch that takes as many frames as it needs.
pub struct GetRun {
    total: usize,
    per_frame: usize,
    got: usize,
    ended: bool,
}

impl GetRun {
    /// Blocks asked for in all.
    pub closed spec fn total(&self) -> nat {
        self.total as nat
    }

    /// Blocks one frame can carry.
    pub closed spec fn per_frame(&self) -> nat {
        self.per_frame as nat
    }

    /// Blocks received so far.
    pub closed spec fn got(&self) -> nat {
        self.got as nat
    }

    /// Whether a frame came back short.
    pub closed spec fn ended(&self) -> bool {
        self.ended
    }

    /// Whether there is anything left to ask for.
    pub open spec fn wants(&self) -> bool {
        !self.ended() && self.got() < self.total()
    }

    /// Blocks the next frame asks for.
    pub open spec fn asks(&self) -> nat {
        if self.total() - self.got() < self.per_frame() {
            (self.total() - self.got()) as nat
        } else {
            self.per_frame()
        }
    }

    /// The run once a frame has brought `received` blocks.
    pub open spec fn receives(&self, before: &Self, received: nat) -> bool {
        &&& self.total() == before.total()
        &&& self.per_frame() == before.per_frame()
        &&& self.got() == capped(before.got() as int, received as int)
        &&& self.ended() == (received < before.per_frame())
    }

    /// Blocks that the next frame brings from a server that holds the first
    /// `resident` of all.
    pub open spec fn answer(&self, resident: nat) -> nat {
        if resident - self.got() < self.asks() {
            (resident - self.got()) as nat
        } else {
            self.asks()
        }
    }

    /// The `k`-th frame of a fetch has been answered by such a server.
    pub open spec fn is_answered(runs: Seq<Self>, k: int, resident: nat) -> bool {
        runs[k].wants() && runs[k + 1].receives(&runs[k], runs[k].answer(resident))
    }

    pub fn new(total: usize, per_frame: usize) -> (run: Self)
        requires
            per_frame > 0,
        ensures
            run.total() == total,
            run.per_frame() == per_frame,
            run.got() == 0,
            !run.ended(),
    {
        GetRun { total, per_frame, got: 0, ended: false }
    }

    /// The blocks to ask for next, from the first to before the second; none
    /// once everything is here or the server has run out.
    pub fn next(&self) -> (range: Option<(usize, usize)>)
        ensures
            match range {
                Some((start, end)) => {
                    &&& self.wants()
                    &&& start == self.got()
                    &&& end == self.got() + self.asks()
                    &&& end <= self.total()
                },
                None => !self.wants(),
            },
    {
        if self.ended || self.got >= self.total {
            return None;
        }
        if self.total - self.got < self.per_frame {
            Some((self.got, self.total))
        } else {
            Some((self.got, self.got + self.per_frame))
        }
    }

    /// Record what a frame brought. A frame the server did not fill means it
    /// ran out of resident blocks, not out of frame -- so there is nothing
    /// more to ask for.
    pub fn note(&mut self, received: usize)
        ensures
            final(self).receives(old(self), received as nat),
    {
        self.ended = received < self.per_frame;
        self.got = self.got.saturating_add(received);
    }

    /// One frame of a fetch: where nothing is left to ask for after it, exactly
    /// the blocks that the server holds are here, and otherwise a whole frame
    /// more of them.
    pub proof fn lemma_frame_brings_its_share(before: &Self, after: &Self, resident: nat)
        requires
            before.per_frame() > 0,
            before.wants(),
            before.got() <= resident <= before.total(),
            after.receives(before, before.answer(resident)),
        ensures
            after.got() == before.got() + before.answer(resident),
            after.got() <= resident,
            !after.wants() ==> after.got() == resident,
            after.wants() ==> after.got() == before.got() + before.per_frame(),
    {
    }

    /// A run longer than one frame comes back whole: however many frames it
    /// took, a fetch with nothing left to ask for has brought back exactly the
    /// leading run that the server holds, and any other a full frame with each.
    pub proof fn lemma_frames_bring_the_whole_run(runs: Seq<Self>, resident: nat)
        requires
            runs.len() > 0,
            runs[0].per_frame() > 0,
            runs[0].got() == 0,
            !runs[0].ended(),
            resident <= runs[0].total(),
            forall|k: int|
                0 <= k < runs.len() - 1 ==> #[trigger] Self::is_answered(runs, k, resident),
        ensures
            runs.last().total() == runs[0].total(),
            runs.last().per_frame() == runs[0].per_frame(),
            runs.last().got() <= resident,
            !runs.last().wants() ==> runs.last().got() == resident,
            runs.last().wants() ==> runs.last().got() == (runs.len() - 1) * runs[0].per_frame(),
        decreases runs.len(),
    {
        if runs.len() > 1 {
            let earlier = runs.drop_last();
            assert forall|k: int| 0 <= k < earlier.len() - 1 implies #[trigger] Self::is_answered(
                earlier,
                k,
                resident,
            ) by {
                assert(Self::is_answered(runs, k, resident));
            }
            Self::lemma_frames_bring_the_whole_run(earlier, resident);
            assert(Self::is_answered(runs, runs.len() - 2, resident));
            Self::lemma_frame_brings_its_share(&earlier.last(), &runs.last(), resident);
            let frames = runs.len() as int;
            let share = runs[0].per_frame() as int;
            assert((frames - 2) * share + share == (frames - 1) * share) by (nonlinear_arith);
        }
    }
}

/// An offer that takes as many frames as it needs, each chunk hung below the
/// last block of the one before it.
pub struct PutRun {
    total: usize,
    per_frame: usize,
    sent: usize,
    report: AdmitReport,
    ended: bool,
}

/// The sum of two counts, or the limit.
pub open spec fn capped(a: int, b: int) -> int {
    if a + b > usize::MAX {
        usize::MAX as int
    } else {
        a + b
    }
}

impl PutRun {
    /// Blocks offered in all.
    pub closed spec fn total(&self) -> nat {
        self.total as nat
    }

    /// Blocks one frame can carry.
    pub closed spec fn per_frame(&self) -> nat {
        self.per_frame as nat
    }

    /// Blocks sent so far.
    pub closed spec fn sent(&self) -> nat {
        self.sent as nat
    }

    /// What became of them so far.
    pub closed spec fn so_far(&self) -> AdmitReport {
        self.report
    }

    /// Whether the server turned a block away.
    pub closed spec fn ended(&self) -> bool {
        self.ended
    }

    pub open spec fn wf(&self) -> bool {
        self.sent() <= self.total()
    }

    /// Every block that was sent or given up is accounted for.
    pub open spec fn adds_up(&self) -> bool {
        self.so_far().inserted + self.so_far().deduped + self.so_far().dropped == (if self.ended() {
            self.total()
        } else {
            self.sent()
        })
    }

    pub fn new(total: usize, per_frame: usize) -> (run: Self)
        requires
            per_frame > 0,
        ensures
            run.wf(),
            run.total() == total,
            run.per_frame() == per_frame,
            run.sent() == 0,
            run.so_far() == (AdmitReport { inserted: 0, deduped: 0, dropped: 0 }),
            !run.ended(),
            run.adds_up(),
    {
        PutRun { total, per_frame, sent: 0, report: AdmitReport::default(), ended: false }
    }

    /// The blocks to send next, from the first to before the second; none
    /// once everything is sent or the server has turned one away.
    pub fn next(&self) -> (range: Option<(usize, usize)>)
        requires
            self.wf(),
        ensures
            match range {
                Some((start, end)) => {
                    &&& !self.ended()
                    &&& start == self.sent()
                    &&& self.sent() < self.total()
                    &&& end == (if self.total() - self.sent() < self.per_frame() {
                        self.total()
                    } else {
                        self.sent() + self.per_frame()
                    })
                },
                None => self.ended() || self.sent() == self.total(),
            },
    {
        if self.ended || self.sent >= self.total {
            return None;
        }
        if self.total - self.sent < self.per_frame {
            Some((self.sent, self.total))
        } else {
            Some((self.sent, self.sent + self.per_frame))
        }
    }

    /// What the next chunk hangs below.
    pub fn parent(&self, parent: Option<BlockHash>, names: &[(BlockHash, u32)]) -> (above: Option<
        BlockHash,
    >)
        requires
            self.wf(),
            names@.len() == self.total(),
        ensures
            above == crate::store::link_above(parent, names@, self.sent() as int),
            above == (if self.sent() == 0 {
                parent
            } else {
                Some(names@[self.sent() - 1].0)
            }),
    {
        if self.sent == 0 {
            parent
        } else {
            Some(names[self.sent - 1].0)
        }
    }

    /// Record what became of a chunk. Once a block is turned away everything
    /// after it is an orphan.
    pub fn note(&mut self, chunk: usize, report: &AdmitReport)
        requires
            old(self).wf(),
            old(self).sent() + chunk <= old(self).total(),
        ensures
            final(self).wf(),
            final(self).total() == old(self).total(),
            final(self).per_frame() == old(self).per_frame(),
            final(self).sent() == old(self).sent() + chunk,
            final(self).ended() == (report.dropped > 0),
            final(self).so_far().inserted == capped(
                old(self).so_far().inserted as int,
                report.inserted as int,
            ),
            final(self).so_far().deduped == capped(
                old(self).so_far().deduped as int,
                report.deduped as int,
            ),
            final(self).so_far().dropped == (if report.dropped > 0 {
                capped(
                    capped(old(self).so_far().dropped as int, report.dropped as int),
                    old(self).total() - old(self).sent() - chunk,
                )
            } else {
                old(self).so_far().dropped as int
            }),
            !old(self).ended() && old(self).adds_up() && report.inserted + report.deduped
                + report.dropped == chunk ==> final(self).adds_up(),
    {
        self.report.inserted = self.report.inserted.saturating_add(report.inserted);
        self.report.deduped = self.report.deduped.saturating_add(report.deduped);
        self.report.dropped = self.report.dropped.saturating_add(report.dropped);
        self.sent = self.sent + chunk;
        self.ended = report.dropped > 0;
        if self.ended {
            self.report.dropped = self.report.dropped.saturating_add(self.total - self.sent);
        }
    }

    /// What became of the blocks.
    pub fn report(&self) -> (report: AdmitReport)
        ensures
            report == self.so_far(),
    {
        self.report
    }
}

/// Cut a payload into its blocks, if it is exactly `count` of them.
pub fn split_payload<'a>(payload: &'a [u8], count: usize, block_bytes: usize) -> (blocks: Option<
    Vec<&'a [u8]>,
>)
    ensures
        blocks is Some <==> payload@.len() == count * block_bytes,
        blocks matches Some(blocks) ==> crate::message::contents_of(blocks@)
            == crate::message::blocks_of(payload@, count as nat, block_bytes as nat),
{
    let len: usize = payload.len();
    match count.checked_mul(block_bytes) {
        None => {
            return None;
        },
        Some(expected) => {
            if len != expected {
                return None;
            }
        },
    }
    let mut blocks: Vec<&'a [u8]> = Vec::new();
    let mut i: usize = 0;
    let mut start: usize = 0;
    while i < count
        invariant
            i <= count,
            start == i * block_bytes,
            payload.len() == count * block_bytes,
            blocks@.len() == i,
            forall|k: int|
                0 <= k < i ==> (#[trigger] blocks@[k])@ == crate::message::blocks_of(
                    payload@,
                    count as nat,
                    block_bytes as nat,
                )[k],
        decreases count - i,
    {
        proof {
            assert((i + 1) * block_bytes == start + block_bytes) by (nonlinear_arith)
                requires
                    start == i * block_bytes,
            ;
            assert((i + 1) * block_bytes <= count * block_bytes) by (nonlinear_arith)
                requires
                    i + 1 <= count,
            ;
        }
        blocks.push(vstd::slice::slice_subrange(payload, start, start + block_bytes));
        start = start + block_bytes;
        i = i + 1;
    }
    assert(crate::message::contents_of(blocks@) =~= crate::message::blocks_of(
        payload@,
        count as nat,
        block_bytes as nat,
    ));
    Some(blocks)
}

/// Ids go up by one, start again after the last, and are never zero.
pub proof fn lemma_request_ids_go_round(id: u32, next: u32)
    requires
        call_ensures(next_request_id, (id,), next),
    ensures
        next != 0,
        next != id,
        id < u32::MAX ==> next == id + 1,
        id == u32::MAX ==> next == 1,
{
}

/// A response is the answer to a request only if it carries its id and does not
/// say `Error`; one that does carries the reason, in words.
pub proof fn lemma_answers_are_matched(
    request_id: u32,
    response: &Header,
    body: &[u8],
    checked: Result<(), ResponseError>,
)
    requires
        call_ensures(check_response, (request_id, response, body), checked),
    ensures
        response.request_id != request_id ==> (checked matches Err(
            ResponseError::WrongId { got, wanted },
        ) && got == response.request_id && wanted == request_id),
        response.request_id == request_id && response.opcode != Opcode::Error ==> checked is Ok,
        response.request_id == request_id && response.opcode == Opcode::Error ==> {
            let n = body@[0] * 0x100 + body@[1];
            if body@.len() < 2 || body@.len() < 2 + n || !vstd::utf8::valid_utf8(
                body@.subrange(2, 2 + n),
            ) {
                checked matches Err(ResponseError::Malformed(ProtoError::Truncated))
            } else {
                checked matches Err(ResponseError::Refused(reason)) && reason@
                    == vstd::utf8::decode_utf8(body@.subrange(2, 2 + n))
            }
        },
{
    if response.request_id == request_id && response.opcode == Opcode::Error {
        let n = body@[0] * 0x100 + body@[1];
        if body@.len() >= 2 {
            assert(crate::proto::number(body@, 2) == n) by {
                reveal_with_fuel(crate::bytes::be_value, 3);
                assert(crate::proto::head(body@, 2).drop_last().drop_last().len() == 0);
            }
            if body@.len() >= 2 + n {
                assert(crate::proto::head(crate::proto::skip(body@, 2), n as nat)
                    =~= body@.subrange(2, 2 + n));
            }
        }
    }
}

/// A server is refused unless every part of its layout is the one that names
/// are made under.
pub proof fn lemma_layouts_have_to_agree(
    info: &ServerInfo,
    layout: &BlockLayout,
    checked: Result<(), ProtoError>,
)
    requires
        call_ensures(expect_layout, (info, layout), checked),
    ensures
        checked is Ok <==> {
            &&& info.layout.tokens_per_block == layout.tokens_per_block
            &&& info.layout.num_layers == layout.num_layers
            &&& info.layout.num_kv_heads == layout.num_kv_heads
            &&& info.layout.head_dim == layout.head_dim
            &&& info.layout.dtype == layout.dtype
        },
        checked is Err ==> checked == Err::<(), ProtoError>(ProtoError::LayoutMismatch),
{
}

/// An offer goes out in order and without gaps: each chunk starts where the one
/// before it ended, is a full frame unless it is the last, and hangs below the
/// very block before it in the list.
pub proof fn lemma_offers_go_out_in_order(
    run: &PutRun,
    range: Option<(usize, usize)>,
    parent: Option<BlockHash>,
    names: &[(BlockHash, u32)],
    above: Option<BlockHash>,
)
    requires
        run.wf(),
        run.per_frame() > 0,
        names@.len() == run.total(),
        call_ensures(PutRun::next, (run,), range),
        call_ensures(PutRun::parent, (run, parent, names), above),
    ensures
        match range {
            None => run.ended() || run.sent() == run.total(),
            Some((start, end)) => {
                &&& !run.ended()
                &&& start == run.sent()
                &&& start < end <= run.total()
                &&& end - start <= run.per_frame()
                &&& end < run.total() ==> end - start == run.per_frame()
            },
        },
        run.sent() == 0 ==> above == parent,
        run.sent() > 0 ==> above == Some(names@[run.sent() - 1].0),
{
}

/// An offer ends with the first chunk from which a block was turned away, and
/// what was not sent then counts as turned away too.
pub proof fn lemma_offers_end_at_the_first_refusal(
    run: &mut PutRun,
    chunk: usize,
    report: AdmitReport,
)
    requires
        call_ensures(PutRun::note, (run, chunk, &report), ()),
        old(run).wf(),
        old(run).sent() + chunk <= old(run).total(),
        !old(run).ended(),
        old(run).so_far().inserted + old(run).so_far().deduped + old(run).so_far().dropped == old(
            run).sent(),
        report.inserted + report.deduped + report.dropped == chunk,
    ensures
        final(run).sent() == old(run).sent() + chunk,
        final(run).total() == old(run).total(),
        final(run).per_frame() == old(run).per_frame(),
        final(run).ended() <==> report.dropped > 0,
        final(run).so_far().inserted == old(run).so_far().inserted + report.inserted,
        final(run).so_far().deduped == old(run).so_far().deduped + report.deduped,
        final(run).so_far().inserted + final(run).so_far().deduped + final(run).so_far().dropped
            == (if report.dropped > 0 {
            old(run).total()
        } else {
            final(run).sent()
        }),
{
}

/// A payload is cut into blocks only if it is exactly as long as that many
/// blocks, and block `i` is the `i`-th piece.
pub proof fn lemma_payloads_are_cut_evenly<'a>(
    payload: &'a [u8],
    count: usize,
    size: usize,
    blocks: Option<Vec<&'a [u8]>>,
    i: int,
)
    requires
        call_ensures(split_payload, (payload, count, size), blocks),
    ensures
        blocks is Some <==> payload@.len() == count * size,
        blocks matches Some(blocks) ==> {
            &&& blocks@.len() == count
            &&& 0 <= i < count ==> blocks@[i]@ == payload@.subrange(i * size, i * size + size)
        },
{
    if let Some(blocks) = blocks {
        let contents = crate::message::contents_of(blocks@);
        assert(contents.len() == blocks@.len() && contents.len() == count);
        if 0 <= i < count {
            assert(contents[i] == blocks@[i]@);
        }
    }
}

/// A frame of a lookup names no more blocks than a frame may, and a frame of a
/// fetch asks for no more than it can carry; both go on from where the last one
/// ended.
pub proof fn lemma_frames_ask_in_order(
    lookup: &MatchRun,
    named: Option<(usize, usize)>,
    fetch: &GetRun,
    asked: Option<(usize, usize)>,
)
    requires
        lookup.wf(),
        call_ensures(MatchRun::next, (lookup,), named),
        fetch.per_frame() > 0,
        call_ensures(GetRun::next, (fetch,), asked),
    ensures
        match named {
            None => lookup.ended(),
            Some((start, end)) => {
                &&& start == lookup.matched()
                &&& start <= end <= lookup.total()
                &&& end - start <= 256
                &&& end < lookup.total() ==> end - start == 256
            },
        },
        match asked {
            None => fetch.ended() || fetch.got() >= fetch.total(),
            Some((start, end)) => {
                &&& start == fetch.got()
                &&& start < end <= fetch.total()
                &&& end - start <= fetch.per_frame()
                &&& end < fetch.total() ==> end - start == fetch.per_frame()
            },
        },
{
}

/// A lookup is settled by a frame of which not all blocks are held, or by the
/// last one; a fetch by a frame that came back short.
pub proof fn lemma_short_frames_are_the_last(
    lookup: &mut MatchRun,
    found: usize,
    fetch: &mut GetRun,
    received: usize,
)
    requires
        call_ensures(MatchRun::note, (lookup, found), ()),
        call_ensures(GetRun::note, (fetch, received), ()),
        old(lookup).matched() + found <= usize::MAX,
        old(fetch).got() + received <= usize::MAX,
    ensures
        final(lookup).total() == old(lookup).total(),
        final(lookup).matched() == old(lookup).matched() + found,
        final(lookup).ended() <==> found < 256 || final(lookup).matched() >= old(lookup).total(),
        final(fetch).total() == old(fetch).total(),
        final(fetch).per_frame() == old(fetch).per_frame(),
        final(fetch).got() == old(fetch).got() + received,
        final(fetch).ended() <==> received < old(fetch).per_frame(),
{
}

} // verus!
