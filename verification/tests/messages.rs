//! What goes over the wire, request by request: encoding, reading back, what
//! the server makes of it and how the client cuts and stitches runs.

use kvtier::block::{BlockHash, BlockLayout};
use kvtier::client::{
    check_response, expect_layout, next_request_id, split_payload, GetRun, MatchRun, PutRun,
    ResponseError,
};
use kvtier::message::{
    decode_match, decode_put, decode_report, decode_run, decode_stats, encode_hash_request,
    encode_match, encode_put, encode_report, encode_stats, frame, read_hash_request, run_prelude,
};
use kvtier::proto::{Header, Opcode, ProtoError, ServerInfo, HEADER_BYTES, MAX_BLOCKS_PER_REQUEST};
use kvtier::server::{
    answer_error, answer_put, dispatch, from_stripes, into_stripes, stripe_len, writeback_budget,
    Plan,
};
use kvtier::store::{AdmitReport, Stats};

fn names(count: u8) -> Vec<BlockHash> {
    (0..count).map(|i| BlockHash::from_bytes([i; 16])).collect()
}

fn cut(bytes: &[u8]) -> (Header, &[u8]) {
    let mut head = [0u8; HEADER_BYTES];
    head.copy_from_slice(&bytes[..HEADER_BYTES]);
    (Header::decode(&head).unwrap(), &bytes[HEADER_BYTES..])
}

#[test]
fn a_frame_is_a_header_and_its_payload() {
    let bytes = frame(Opcode::Stats, 9, &[1, 2, 3]);
    let (header, payload) = cut(&bytes);
    assert_eq!(header, Header::new(Opcode::Stats, 9, 3));
    assert_eq!(payload, [1, 2, 3]);
}

#[test]
fn a_request_for_names_round_trips() {
    let hashes = names(5);
    let payload = encode_hash_request(&hashes);
    assert_eq!(payload.len(), 4 + 5 * 16);
    assert_eq!(read_hash_request(&payload), Ok(hashes));

    let mut long = payload.clone();
    long.push(0);
    assert_eq!(read_hash_request(&long), Err(ProtoError::TrailingBytes(1)));
    assert_eq!(
        read_hash_request(&payload[..20]),
        Err(ProtoError::Truncated)
    );
    assert_eq!(
        read_hash_request(&1_000_000u32.to_be_bytes()),
        Err(ProtoError::TooManyBlocks(1_000_000))
    );
}

#[test]
fn a_count_round_trips() {
    assert_eq!(decode_match(&encode_match(77)), Ok(77));
    assert_eq!(decode_match(&[0, 0, 0]), Err(ProtoError::Truncated));
    assert_eq!(
        decode_match(&[0, 0, 0, 1, 2]),
        Err(ProtoError::TrailingBytes(1))
    );
}

#[test]
fn a_run_of_blocks_round_trips() {
    let blocks = [vec![1u8; 8], vec![2u8; 8]];
    let mut bytes = run_prelude(5, 2, 8);
    for block in &blocks {
        bytes.extend_from_slice(block);
    }
    let (header, payload) = cut(&bytes);
    assert_eq!(header, Header::new(Opcode::GetBlocks, 5, 4 + 16));
    assert_eq!(
        decode_run(payload, 8),
        Ok(vec![&blocks[0][..], &blocks[1][..]])
    );
    assert_eq!(decode_run(&payload[..19], 8), Err(ProtoError::Truncated));
    assert_eq!(decode_run(payload, 7), Err(ProtoError::TrailingBytes(2)));
}

#[test]
fn an_offer_round_trips() {
    let hashes = names(3);
    let offered: Vec<(BlockHash, u32)> = hashes.iter().map(|&hash| (hash, 16)).collect();
    let blocks = [vec![7u8; 4], vec![8u8; 4], vec![9u8; 4]];
    let refs: Vec<&[u8]> = blocks.iter().map(|block| block.as_slice()).collect();

    for parent in [None, Some(hashes[2])] {
        let payload = encode_put(parent, &offered, &refs);
        let request = decode_put(&payload, 4).unwrap();
        assert_eq!(request.parent, parent);
        assert_eq!(request.names, offered);
        assert_eq!(request.blocks, refs);
        assert!(matches!(
            decode_put(&payload[..payload.len() - 1], 4),
            Err(ProtoError::Truncated)
        ));
        assert!(matches!(
            decode_put(&payload, 3),
            Err(ProtoError::TrailingBytes(3))
        ));
    }
}

#[test]
fn a_report_round_trips() {
    let report = AdmitReport {
        inserted: 3,
        deduped: 2,
        dropped: 1,
    };
    let payload = encode_report(&report);
    assert_eq!(payload, [0, 0, 0, 3, 0, 0, 0, 2, 0, 0, 0, 1]);
    assert_eq!(decode_report(&payload), Ok(report));
    assert_eq!(decode_report(&payload[..8]), Err(ProtoError::Truncated));
}

#[test]
fn counters_round_trip() {
    let stats = Stats {
        lookups: 1,
        queried_blocks: 2,
        hit_blocks: 3,
        inserted_blocks: 4,
        deduped_blocks: 5,
        rejected_blocks: 6,
        evicted_blocks: 7,
        demoted_blocks: 8,
        blocking_demotions: 9,
        written_back: 10,
        promoted_blocks: 11,
        bytes_admitted: 12,
    };
    let payload = encode_stats(&stats, 13);
    assert_eq!(payload.len(), 13 * 8);
    for (i, chunk) in payload.chunks(8).enumerate() {
        assert_eq!(chunk, (i as u64 + 1).to_be_bytes());
    }
    let (back, resident) = decode_stats(&payload).unwrap();
    assert_eq!(resident, 13);
    assert_eq!(
        (back.lookups, back.written_back, back.bytes_admitted),
        (1, 10, 12)
    );
    assert!(matches!(
        decode_stats(&payload[..100]),
        Err(ProtoError::Truncated)
    ));
}

#[test]
fn a_server_knows_what_it_is_asked() {
    let ask = |opcode| Header::new(opcode, 1, 0);
    assert!(matches!(dispatch(&ask(Opcode::Info), &[], 8), Ok(Plan::Info)));
    assert!(matches!(
        dispatch(&ask(Opcode::Stats), &[], 8),
        Ok(Plan::Stats)
    ));
    assert!(matches!(
        dispatch(&ask(Opcode::Error), &[], 8),
        Err(ProtoError::BadOpcode(0x7F))
    ));

    let hashes = names(4);
    let payload = encode_hash_request(&hashes);
    match dispatch(&ask(Opcode::MatchPrefix), &payload, 8) {
        Ok(Plan::Match(asked)) => assert_eq!(asked, hashes),
        _ => panic!("a probe"),
    }
    match dispatch(&ask(Opcode::GetBlocks), &payload, 8) {
        Ok(Plan::Get(asked)) => assert_eq!(asked, hashes),
        _ => panic!("a fetch"),
    }
    // Blocks so large that only two fit a frame.
    match dispatch(&ask(Opcode::GetBlocks), &payload, 32 * 1024 * 1024 - 64) {
        Ok(Plan::Get(asked)) => assert_eq!(asked, hashes[..2]),
        _ => panic!("a fetch"),
    }
    let block = [5u8; 8];
    let offer = encode_put(None, &[(hashes[1], 16)], &[&block]);
    match dispatch(&ask(Opcode::PutBlocks), &offer, 8) {
        Ok(Plan::Put(request)) => assert_eq!(request.blocks, [&block[..]]),
        _ => panic!("an offer"),
    }
    assert!(matches!(
        dispatch(&ask(Opcode::MatchPrefix), &[0], 8),
        Err(ProtoError::Truncated)
    ));
}

#[test]
fn a_refusal_says_which_request_and_why() {
    let bytes = answer_error(42, &ProtoError::TooManyBlocks(1_000_000));
    let (header, body) = cut(&bytes);
    assert_eq!((header.opcode, header.request_id), (Opcode::Error, 42));
    match check_response(42, &header, body) {
        Err(ResponseError::Refused(reason)) => {
            assert_eq!(reason, "1000000 blocks over cap 256");
        }
        _ => panic!("refused"),
    }
}

#[test]
fn a_response_has_to_match_its_request() {
    let report = AdmitReport {
        inserted: 1,
        deduped: 0,
        dropped: 0,
    };
    let bytes = answer_put(&Header::new(Opcode::PutBlocks, 7, 0), &report);
    let (header, body) = cut(&bytes);
    assert!(check_response(7, &header, body).is_ok());
    assert_eq!(decode_report(body), Ok(report));
    match check_response(8, &header, body) {
        Err(error) => assert_eq!(error.message(), "response id 7 for request 8"),
        Ok(()) => panic!("another request's answer"),
    }
    let refused = Header::new(Opcode::Error, 7, 1);
    match check_response(7, &refused, &[0]) {
        Err(error) => assert_eq!(error.message(), "payload ended mid-field"),
        Ok(()) => panic!("a refusal"),
    }
}

#[test]
fn request_ids_never_come_to_zero() {
    assert_eq!(next_request_id(1), 2);
    assert_eq!(next_request_id(u32::MAX), 1);
}

#[test]
fn names_mean_nothing_under_another_layout() {
    let info = ServerInfo {
        model_id: "m".to_string(),
        layout: BlockLayout::tiny(),
    };
    assert_eq!(expect_layout(&info, &BlockLayout::tiny()), Ok(()));
    assert_eq!(
        expect_layout(&info, &BlockLayout::llama3_8b()),
        Err(ProtoError::LayoutMismatch)
    );
}

#[test]
fn a_fetch_asks_frame_by_frame_until_one_comes_short() {
    for resident in 0..=10usize {
        let mut run = GetRun::new(10, 4);
        let mut got = 0;
        while let Some((start, end)) = run.next() {
            assert_eq!(start, got);
            let received = (resident - got).min(end - start);
            got += received;
            run.note(received);
        }
        assert_eq!(got, resident);
    }
}

#[test]
fn a_lookup_asks_frame_by_frame_until_the_answer_is_known() {
    for total in [0usize, 1, 255, 256, 257, 512, 600] {
        for resident in [0usize, 1, 255, 256, 257, 511, 512, 600] {
            if resident > total {
                continue;
            }
            let mut run = MatchRun::new(total);
            let mut frames = 0;
            while let Some((start, end)) = run.next() {
                assert_eq!(start, run.found());
                assert!(end - start <= 256);
                run.note((resident - start).min(end - start));
                frames += 1;
            }
            assert_eq!(run.found(), resident);
            // A full frame leads to the next one, while there is one.
            assert_eq!(frames, (resident / 256 + 1).min(total.div_ceil(256).max(1)));
        }
    }
}

#[test]
fn an_offer_hangs_each_chunk_below_the_last() {
    let offered: Vec<(BlockHash, u32)> = names(5).into_iter().map(|hash| (hash, 16)).collect();
    let mut run = PutRun::new(5, 2);
    let mut parents = Vec::new();
    while let Some((start, end)) = run.next() {
        parents.push(run.parent(None, &offered));
        run.note(
            end - start,
            &AdmitReport {
                inserted: end - start,
                deduped: 0,
                dropped: 0,
            },
        );
    }
    assert_eq!(
        parents,
        [None, Some(offered[1].0), Some(offered[3].0)]
    );
    assert_eq!(run.report().inserted, 5);
}

#[test]
fn an_offer_stops_at_the_first_block_turned_away() {
    let mut run = PutRun::new(5, 2);
    run.note(
        2,
        &AdmitReport {
            inserted: 1,
            deduped: 0,
            dropped: 1,
        },
    );
    assert_eq!(run.next(), None);
    assert_eq!(
        run.report(),
        AdmitReport {
            inserted: 1,
            deduped: 0,
            dropped: 4
        }
    );
}

#[test]
fn a_flat_payload_is_cut_into_blocks() {
    let payload: Vec<u8> = (0..12).collect();
    assert_eq!(
        split_payload(&payload, 3, 4),
        Some(vec![&payload[..4], &payload[4..8], &payload[8..]])
    );
    assert_eq!(split_payload(&payload, 2, 4), None);
    assert_eq!(split_payload(&payload, usize::MAX, 4), None);
}

#[test]
fn work_is_shared_out_in_stripes() {
    assert_eq!(stripe_len(0, 8), 1);
    assert_eq!(stripe_len(8, 8), 1);
    assert_eq!(stripe_len(9, 8), 2);
    assert_eq!(
        into_stripes((0..9).collect::<Vec<u32>>(), stripe_len(9, 4)),
        [vec![0, 1, 2], vec![3, 4, 5], vec![6, 7, 8]]
    );
    assert!(into_stripes(Vec::<u32>::new(), 1).is_empty());
    let all = from_stripes(into_stripes(
        (0..37).collect::<Vec<u32>>(),
        stripe_len(37, 8),
    ));
    assert_eq!(all, (0..37).collect::<Vec<u32>>());
}

#[test]
fn writeback_leaves_most_of_memory_alone() {
    assert_eq!(writeback_budget(32, 4096), 32);
    assert_eq!(writeback_budget(32, 16), 4);
    assert_eq!(writeback_budget(32, 2), 1);
    assert_eq!(writeback_budget(0, 4096), 1);
    assert_eq!(MAX_BLOCKS_PER_REQUEST, 256);
}
