//! Client and server, frame by frame, with no socket in between.

use kvtier::block::{BlockHash, BlockLayout, PrefixHasher, TokenId};
use kvtier::client::{check_response, expect_layout, next_request_id, GetRun, MatchRun, PutRun};
use kvtier::evict::Costs;
use kvtier::message::{
    decode_match, decode_report, decode_run, decode_stats, encode_hash_request, encode_put, frame,
    run_prelude,
};
use kvtier::proto::{
    blocks_per_frame, decode_info, Header, Opcode, ServerInfo, HEADER_BYTES, MAGIC,
};
use kvtier::server::{
    answer_error, answer_info, answer_match, answer_put, answer_stats, dispatch, writeback_budget,
    Plan,
};
use kvtier::slab::PinnedBlock;
use kvtier::store::{
    AdmitReport, ChainRun, ChainStep, Demotion, FetchPart, FetchRun, FetchStep, KvStore, Stats,
};
use kvtier::tier::DiskTier;
use kvtier::trace::{self, SplitMix64};

/// Recompute cost in units where a block at depth zero costs 1: the linear
/// layers cost the same at any depth, attention grows with it.
struct Model {
    attention_crossover_tokens: f64,
    fetch_secs: f64,
    recompute_secs: f64,
}

impl Model {
    fn recompute_cost(&self, depth_tokens: u32) -> f64 {
        1.0 + f64::from(depth_tokens) / self.attention_crossover_tokens
    }
}

impl Default for Model {
    fn default() -> Self {
        Model {
            attention_crossover_tokens: 30_000.0,
            fetch_secs: 100e-6 + 2048.0 / 3.0e9,
            recompute_secs: 3.3e-3,
        }
    }
}

impl Costs for Model {
    fn priority_for(&self, inflation: u64, depth_tokens: u32) -> u64 {
        (f64::from_bits(inflation) + self.recompute_cost(depth_tokens)).to_bits()
    }

    fn worth_demoting(&self, depth_tokens: u32) -> bool {
        self.fetch_secs < self.recompute_secs * self.recompute_cost(depth_tokens)
    }
}

/// A store and a disk, answering frames.
struct Server {
    store: KvStore<Model>,
    disk: Vec<Vec<u8>>,
}

impl Server {
    fn new(model: &str, layout: BlockLayout, capacity: usize, disk_blocks: usize) -> Self {
        let mut store = KvStore::new(model, layout, capacity, Model::default()).unwrap();
        if disk_blocks > 0 {
            store = store.with_disk_tier(DiskTier::new(layout.block_bytes(), disk_blocks));
        }
        Server {
            store,
            disk: vec![Vec::new(); disk_blocks],
        }
    }

    fn demote(&mut self, demotion: Demotion) {
        self.disk[demotion.disk_slot().index()] = demotion.bytes().to_vec();
        self.store.finish_demotion(demotion, true);
    }

    fn fetch(&mut self, hashes: &[BlockHash]) -> Vec<PinnedBlock> {
        let mut run = FetchRun::new();
        let mut parts = loop {
            match self.store.begin_fetch(hashes, run) {
                FetchStep::Done(parts) => break parts,
                FetchStep::Demote(demotion, next) => {
                    self.demote(demotion);
                    run = next;
                }
            }
        };
        for part in &mut parts {
            if let FetchPart::Pending(promotion) = part {
                promotion.fill(&self.disk[promotion.disk_slot().index()]);
            }
        }
        self.store.finish_fetch(parts)
    }

    /// The answer to one frame, or `None` where the stream cannot be trusted
    /// any more and the server hangs up.
    fn serve(&mut self, request: &[u8]) -> Option<Vec<u8>> {
        let mut head = [0u8; HEADER_BYTES];
        head.copy_from_slice(&request[..HEADER_BYTES]);
        let header = Header::decode(&head).ok()?;
        let payload = &request[HEADER_BYTES..];
        let block_bytes = self.store.layout().block_bytes();
        let answer = match dispatch(&header, payload, block_bytes) {
            Err(error) => answer_error(header.request_id, &error),
            Ok(Plan::Info) => answer_info(&self.store, &header),
            Ok(Plan::Match(hashes)) => answer_match(&mut self.store, &header, &hashes),
            Ok(Plan::Stats) => answer_stats(&self.store, &header),
            Ok(Plan::Get(hashes)) => {
                let pinned = self.fetch(&hashes);
                let mut bytes = run_prelude(header.request_id, pinned.len(), block_bytes);
                for block in &pinned {
                    bytes.extend_from_slice(block.bytes());
                }
                self.store.unpin_all(&pinned);
                bytes
            }
            Ok(Plan::Put(request)) => {
                let mut run = ChainRun::new();
                loop {
                    match self.store.admit_chain(
                        request.parent,
                        &request.names,
                        &request.blocks,
                        run,
                    ) {
                        ChainStep::Done(report) => break answer_put(&header, &report),
                        ChainStep::Demote(demotion, next) => {
                            self.demote(demotion);
                            run = next;
                        }
                    }
                }
            }
        };
        Some(answer)
    }

    /// One round of the writeback loop.
    fn write_back(&mut self, batch: usize) {
        let budget = writeback_budget(batch, self.store.ram_capacity());
        let mut jobs = self.store.begin_writeback(budget);
        for job in &mut jobs {
            self.disk[job.disk_slot().index()] = job.bytes().to_vec();
            job.mark_written();
        }
        self.store.finish_writeback(jobs);
    }
}

struct Client {
    info: ServerInfo,
    last_id: u32,
}

impl Client {
    fn connect(server: &mut Server) -> Self {
        let mut client = Client {
            info: ServerInfo {
                model_id: String::new(),
                layout: BlockLayout::tiny(),
            },
            last_id: 0,
        };
        let body = client.call(server, Opcode::Info, &[]);
        client.info = decode_info(&body).unwrap();
        client
    }

    fn block_bytes(&self) -> usize {
        self.info.layout.block_bytes()
    }

    fn call(&mut self, server: &mut Server, opcode: Opcode, payload: &[u8]) -> Vec<u8> {
        self.last_id = next_request_id(self.last_id);
        let response = server.serve(&frame(opcode, self.last_id, payload)).unwrap();
        let mut head = [0u8; HEADER_BYTES];
        head.copy_from_slice(&response[..HEADER_BYTES]);
        let header = Header::decode(&head).unwrap();
        let body = &response[HEADER_BYTES..];
        assert_eq!(header.payload_len as usize, body.len());
        if let Err(error) = check_response(self.last_id, &header, body) {
            panic!("{}", error.message());
        }
        body.to_vec()
    }

    fn match_prefix(&mut self, server: &mut Server, hashes: &[BlockHash]) -> usize {
        let mut run = MatchRun::new(hashes.len());
        while let Some((start, end)) = run.next() {
            let request = encode_hash_request(&hashes[start..end]);
            let body = self.call(server, Opcode::MatchPrefix, &request);
            run.note(decode_match(&body).unwrap());
        }
        run.found()
    }

    fn get_blocks(&mut self, server: &mut Server, hashes: &[BlockHash]) -> Vec<Vec<u8>> {
        let block_bytes = self.block_bytes();
        let mut run = GetRun::new(hashes.len(), blocks_per_frame(block_bytes));
        let mut blocks = Vec::new();
        while let Some((start, end)) = run.next() {
            let request = encode_hash_request(&hashes[start..end]);
            let body = self.call(server, Opcode::GetBlocks, &request);
            let batch = decode_run(&body, block_bytes).unwrap();
            run.note(batch.len());
            blocks.extend(batch.into_iter().map(|block| block.to_vec()));
        }
        blocks
    }

    fn put_blocks(
        &mut self,
        server: &mut Server,
        parent: Option<BlockHash>,
        names: &[(BlockHash, u32)],
        blocks: &[&[u8]],
    ) -> AdmitReport {
        let mut run = PutRun::new(names.len(), blocks_per_frame(self.block_bytes()));
        while let Some((start, end)) = run.next() {
            let above = run.parent(parent, names);
            let request = encode_put(above, &names[start..end], &blocks[start..end]);
            let body = self.call(server, Opcode::PutBlocks, &request);
            run.note(end - start, &decode_report(&body).unwrap());
        }
        run.report()
    }

    fn stats(&mut self, server: &mut Server) -> (Stats, u64) {
        let body = self.call(server, Opcode::Stats, &[]);
        decode_stats(&body).unwrap()
    }
}

fn start(capacity: usize) -> Server {
    Server::new("test-model", BlockLayout::tiny(), capacity, 0)
}

fn tokens(count: usize, seed: u64) -> Vec<TokenId> {
    SplitMix64::new(seed).tokens(count, 32_000)
}

/// Name a sequence and build its payloads, without touching the server.
fn sequence(tokens: &[TokenId]) -> (Vec<(BlockHash, u32)>, Vec<Vec<u8>>) {
    let layout = BlockLayout::tiny();
    let hasher = PrefixHasher::new("test-model", &layout);
    let hashes = hasher.chain(tokens);

    let names = hashes
        .iter()
        .enumerate()
        .map(|(i, &hash)| (hash, ((i + 1) * layout.tokens_per_block) as u32))
        .collect();
    let payloads = hashes
        .iter()
        .map(|&hash| trace::block_payload(hash, layout.block_bytes()))
        .collect();
    (names, payloads)
}

fn refs(payloads: &[Vec<u8>]) -> Vec<&[u8]> {
    payloads.iter().map(|p| p.as_slice()).collect()
}

fn hashes_of(names: &[(BlockHash, u32)]) -> Vec<BlockHash> {
    names.iter().map(|&(hash, _)| hash).collect()
}

#[test]
fn info_reports_the_servers_layout() {
    let mut server = start(64);
    let client = Client::connect(&mut server);

    assert_eq!(client.info.model_id, "test-model");
    assert_eq!(client.info.layout, BlockLayout::tiny());
    assert_eq!(client.block_bytes(), BlockLayout::tiny().block_bytes());
}

#[test]
fn a_mismatched_layout_is_refused_at_connect() {
    let mut server = start(64);
    // Names computed under llama-3-8b's shape mean nothing to a tiny server.
    let client = Client::connect(&mut server);
    let result = expect_layout(&client.info, &BlockLayout::llama3_8b());
    let error = result.err().expect("must refuse a mismatched layout").message();
    assert!(error.contains("layout"), "got {error}");
}

#[test]
fn put_then_get_returns_the_same_bytes() {
    let mut server = start(64);
    let mut client = Client::connect(&mut server);

    let tokens = tokens(64, 1);
    let (names, payloads) = sequence(&tokens);

    let report = client.put_blocks(&mut server, None, &names, &refs(&payloads));
    assert_eq!(report.inserted, 4);

    let hashes = hashes_of(&names);
    assert_eq!(client.match_prefix(&mut server, &hashes), 4);

    let fetched = client.get_blocks(&mut server, &hashes);
    assert_eq!(fetched, payloads, "bytes must survive the round trip");
}

#[test]
fn a_cold_server_returns_nothing_rather_than_failing() {
    let mut server = start(64);
    let mut client = Client::connect(&mut server);

    let (names, _) = sequence(&tokens(64, 2));
    let hashes = hashes_of(&names);

    assert_eq!(client.match_prefix(&mut server, &hashes), 0);
    assert!(client.get_blocks(&mut server, &hashes).is_empty());
}

#[test]
fn get_returns_the_leading_run_and_stops_at_a_gap() {
    let mut server = start(64);
    let mut client = Client::connect(&mut server);

    let tokens = tokens(96, 3);
    let (names, payloads) = sequence(&tokens);
    let blocks = refs(&payloads);

    // Store only the first three of six blocks.
    client.put_blocks(&mut server, None, &names[..3], &blocks[..3]);

    let fetched = client.get_blocks(&mut server, &hashes_of(&names));
    assert_eq!(fetched.len(), 3, "must not send bytes past the gap");
    assert_eq!(fetched, payloads[..3]);
}

#[test]
fn a_second_client_hits_on_the_firsts_work() {
    // The whole point of the tier: two engine processes sharing a prefix.
    let mut server = start(64);

    let system_prompt = tokens(48, 4);
    let mut first_tokens = system_prompt.clone();
    first_tokens.extend(tokens(32, 5));
    let mut second_tokens = system_prompt.clone();
    second_tokens.extend(tokens(32, 6));

    let mut first = Client::connect(&mut server);
    let (names, payloads) = sequence(&first_tokens);
    first.put_blocks(&mut server, None, &names, &refs(&payloads));

    let mut second = Client::connect(&mut server);
    let (other_names, _) = sequence(&second_tokens);
    let hashes = hashes_of(&other_names);

    assert_eq!(
        second.match_prefix(&mut server, &hashes),
        3,
        "the shared system prompt must hit across connections"
    );
    let fetched = second.get_blocks(&mut server, &hashes);
    assert_eq!(fetched, payloads[..3]);
}

#[test]
fn an_orphan_put_is_rejected_over_the_wire() {
    let mut server = start(64);
    let mut client = Client::connect(&mut server);

    let (names, payloads) = sequence(&tokens(64, 7));
    let blocks = refs(&payloads);

    // Offer block 2 onward, claiming block 1 as parent, without block 1.
    let report = client.put_blocks(&mut server, Some(names[1].0), &names[2..], &blocks[2..]);
    assert_eq!(report.inserted, 0);
    assert_eq!(report.dropped, 2);
    assert_eq!(server.store.resident_blocks(), 0);
}

#[test]
fn stats_come_back_from_the_server() {
    let mut server = start(64);
    let mut client = Client::connect(&mut server);

    let (names, payloads) = sequence(&tokens(64, 8));
    client.put_blocks(&mut server, None, &names, &refs(&payloads));
    client.put_blocks(&mut server, None, &names, &refs(&payloads));

    let (stats, resident) = client.stats(&mut server);
    assert_eq!(resident, 4);
    assert_eq!(stats.inserted_blocks, 4);
    assert_eq!(stats.deduped_blocks, 4, "the second put was all dedup");
}

#[test]
fn many_requests_share_one_connection() {
    let mut server = start(512);
    let mut client = Client::connect(&mut server);

    for seed in 0..32 {
        let (names, payloads) = sequence(&tokens(32, 100 + seed));
        client.put_blocks(&mut server, None, &names, &refs(&payloads));
        assert_eq!(client.match_prefix(&mut server, &hashes_of(&names)), 2);
    }
}

#[test]
fn a_bad_frame_gets_an_error_and_the_connection_survives() {
    let mut server = start(64);

    // Claim 1,000,000 hashes but send none.
    let mut request = Header::new(Opcode::MatchPrefix, 42, 4).encode().to_vec();
    request.extend_from_slice(&1_000_000u32.to_be_bytes());
    let answer = server.serve(&request).unwrap();

    let mut bytes = [0u8; HEADER_BYTES];
    bytes.copy_from_slice(&answer[..HEADER_BYTES]);
    let response = Header::decode(&bytes).unwrap();
    assert_eq!(response.opcode, Opcode::Error);
    assert_eq!(response.request_id, 42, "errors must be attributable");

    // Still usable afterwards: a peer's bad frame is not our problem.
    let answer = server.serve(&Header::new(Opcode::Stats, 43, 0).encode()).unwrap();
    bytes.copy_from_slice(&answer[..HEADER_BYTES]);
    assert_eq!(Header::decode(&bytes).unwrap().opcode, Opcode::Stats);
}

#[test]
fn a_desynced_stream_is_cut_off() {
    let mut server = start(64);

    let mut bytes = Header::new(Opcode::Stats, 1, 0).encode();
    bytes[0..4].copy_from_slice(&(MAGIC ^ 0xFFFF_FFFF).to_be_bytes());

    // Bad magic means we no longer know where frames begin, so the server
    // must hang up rather than guess.
    assert!(server.serve(&bytes).is_none());
}

#[test]
fn a_lookup_longer_than_one_frame_is_split_transparently() {
    let mut server = start(512);
    let mut client = Client::connect(&mut server);
    let (names, payloads) = sequence(&tokens(300 * 16, 77));
    let hashes = hashes_of(&names);
    assert_eq!(hashes.len(), 300);

    assert_eq!(client.match_prefix(&mut server, &hashes), 0);
    client.put_blocks(&mut server, None, &names[..280], &refs(&payloads[..280]));
    assert_eq!(client.match_prefix(&mut server, &hashes), 280);
    assert_eq!(client.match_prefix(&mut server, &hashes[..256]), 256);
    assert_eq!(client.match_prefix(&mut server, &[]), 0);
}

#[test]
fn a_run_longer_than_one_frame_is_split_transparently() {
    // Real block sizes overflow a frame long before the block-count cap:
    // 32 Llama-3-8B blocks is already 64 MiB. The client must stitch the
    // pieces back together without the caller knowing.
    let layout = BlockLayout::llama3_8b();
    let block_bytes = layout.block_bytes();
    let per_frame = blocks_per_frame(block_bytes);
    let count = per_frame + 4;

    let mut server = Server::new("big", layout, count + 2, 0);
    let mut client = Client::connect(&mut server);
    let hasher = PrefixHasher::new("big", &layout);
    let tokens: Vec<TokenId> = SplitMix64::new(11).tokens(count * layout.tokens_per_block, 32_000);
    let hashes = hasher.chain(&tokens);

    let names: Vec<(BlockHash, u32)> = hashes
        .iter()
        .enumerate()
        .map(|(i, &hash)| (hash, ((i + 1) * layout.tokens_per_block) as u32))
        .collect();
    // One distinguishable byte per block is enough to catch a mis-stitch.
    let payloads: Vec<Vec<u8>> = (0..count).map(|i| vec![i as u8; block_bytes]).collect();

    let report = client.put_blocks(&mut server, None, &names, &refs(&payloads));
    assert_eq!(report.inserted, count, "a multi-frame put must land whole");

    let fetched = client.get_blocks(&mut server, &hashes);
    assert_eq!(
        fetched.len(),
        count,
        "a multi-frame get must come back whole"
    );
    for (i, block) in fetched.iter().enumerate() {
        assert!(
            block.iter().all(|&b| b == i as u8),
            "block {i} is stitched wrong"
        );
    }
}

#[test]
fn concurrent_fetches_each_get_their_own_bytes() {
    // The point of pinning: transfers overlap, and none of them sees another
    // client's block.
    let mut server = start(512);
    let mut writer = Client::connect(&mut server);
    let mut sequences = Vec::new();
    for seed in 0..8u64 {
        let (names, payloads) = sequence(&tokens(64, 200 + seed));
        writer.put_blocks(&mut server, None, &names, &refs(&payloads));
        sequences.push((hashes_of(&names), payloads));
    }

    for _ in 0..8 {
        // Every run is held open before the first one is let go.
        let open: Vec<Vec<PinnedBlock>> = sequences
            .iter()
            .map(|(hashes, _)| server.fetch(hashes))
            .collect();
        for (pinned, (_, payloads)) in open.iter().zip(&sequences) {
            let got: Vec<&[u8]> = pinned.iter().map(|block| block.bytes()).collect();
            assert_eq!(got, refs(payloads));
        }
        for pinned in &open {
            server.store.unpin_all(pinned);
        }
    }
    for (hashes, payloads) in &sequences {
        assert_eq!(&writer.get_blocks(&mut server, hashes), payloads);
    }
}

#[test]
fn admits_proceed_while_a_fetch_is_in_flight() {
    // A reader holds pins, not the store lock, so writers are not blocked and
    // the reader's bytes are unaffected by what lands meanwhile.
    let mut server = start(512);
    let mut writer = Client::connect(&mut server);
    let (names, payloads) = sequence(&tokens(64, 300));
    writer.put_blocks(&mut server, None, &names, &refs(&payloads));
    let hashes = hashes_of(&names);

    for seed in 0..32u64 {
        let pinned = server.fetch(&hashes);
        let (names, others) = sequence(&tokens(32, 400 + seed));
        writer.put_blocks(&mut server, None, &names, &refs(&others));

        let got: Vec<&[u8]> = pinned.iter().map(|block| block.bytes()).collect();
        assert_eq!(got, refs(&payloads));
        server.store.unpin_all(&pinned);
    }

    assert!(server.store.resident_blocks() > 4, "admits landed");
}

#[test]
fn pins_are_released_after_a_fetch() {
    let mut server = start(64);
    let mut client = Client::connect(&mut server);

    let (names, payloads) = sequence(&tokens(64, 500));
    client.put_blocks(&mut server, None, &names, &refs(&payloads));
    client.get_blocks(&mut server, &hashes_of(&names));

    // A leaked pin would leave the block unevictable forever, which shows up
    // as an empty eviction candidate list.
    assert_eq!(
        server.store.index().leaves().len(),
        1,
        "the tail block must be evictable again once the transfer is done"
    );
}

#[test]
fn a_client_fetching_demoted_blocks_gets_the_right_bytes() {
    // The server reads them back off disk. The client should not be able to
    // tell.
    let mut server = Server::new("test-model", BlockLayout::tiny(), 4, 256);
    let mut client = Client::connect(&mut server);
    let mut written = Vec::new();
    for seed in 0..12u64 {
        let (names, payloads) = sequence(&tokens(64, 700 + seed));
        client.put_blocks(&mut server, None, &names, &refs(&payloads));
        written.push((hashes_of(&names), payloads));
    }

    // Only 4 blocks fit in RAM, so most of this comes off disk.
    for (hashes, payloads) in &written {
        assert_eq!(client.get_blocks(&mut server, hashes), *payloads);
    }

    let (stats, resident) = client.stats(&mut server);
    assert_eq!(resident, 48, "nothing was dropped");
    assert!(stats.promoted_blocks > 0, "blocks came back off disk");
}

#[test]
fn the_server_cleans_blocks_in_the_background() {
    let mut server = Server::new("test-model", BlockLayout::tiny(), 16, 256);
    let mut client = Client::connect(&mut server);
    for seed in 0..4u64 {
        let (names, payloads) = sequence(&tokens(64, 900 + seed));
        client.put_blocks(&mut server, None, &names, &refs(&payloads));
    }

    // RAM is over the watermark, so the loop has work to do.
    for _ in 0..20 {
        server.write_back(32);
    }

    let (stats, _) = client.stats(&mut server);
    assert!(stats.written_back > 0, "the writeback loop must have run");
    assert_eq!(server.store.dirty_blocks(), 0, "everything is clean");
}
