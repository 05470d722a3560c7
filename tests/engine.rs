use contender_spammer::cache::{FlushError, FlushStep, ResultCache, RunRecord};
use contender_spammer::drain::{step, DrainAction, DrainEvent, DrainState, DRAIN_ATTEMPTS};
use contender_spammer::gas::{escalated_gas_price, selector_bucket, SelectorError, GWEI};
use contender_spammer::nonce::{NonceError, NonceTable};
use contender_spammer::schedule::{batch_bounds, spam_total};
use contender_spammer::spammer::{BlockwiseSpammer, PrepareError};
use contender_spammer::types::{Address, ExecutionIntent, Payload, TxRequest};

fn addr(b: u8) -> Address {
    let mut bytes = [0u8; 20];
    bytes[19] = b;
    Address { bytes }
}

fn transfer(from: u8) -> TxRequest {
    TxRequest { from: Some(addr(from)), to: Some(addr(200)), input: None }
}

fn call(from: u8, data: Vec<u8>) -> TxRequest {
    TxRequest { from: Some(addr(from)), to: Some(addr(201)), input: Some(data) }
}

fn single(tx: TxRequest) -> ExecutionIntent {
    ExecutionIntent::Single { tx, kind: Some("transfer".to_string()) }
}

fn record(n: u8, block: u64) -> RunRecord {
    RunRecord { tx_hash: vec![n; 32], kind: None, start_timestamp: 1000 + n as u64, block_number: block }
}

#[test]
fn nonce_table_issues_increasing_nonces() {
    let mut t = NonceTable::new();
    t.register(addr(1), 7);
    assert_eq!(t.next(&addr(1)), Ok(7));
    assert_eq!(t.next(&addr(1)), Ok(8));
    assert_eq!(t.next(&addr(1)), Ok(9));
    assert_eq!(t.peek(&addr(1)), Some(10));
    assert!(t.is_registered(&addr(1)));
}

#[test]
fn nonce_table_rejects_unregistered_and_exhausted() {
    let mut t = NonceTable::new();
    assert_eq!(t.next(&addr(2)), Err(NonceError::Unregistered));
    t.register(addr(2), u64::MAX);
    assert_eq!(t.next(&addr(2)), Err(NonceError::Exhausted));
    assert_eq!(t.peek(&addr(2)), Some(u64::MAX));
}

#[test]
fn nonces_never_repeat_across_senders() {
    let mut t = NonceTable::new();
    t.register(addr(1), 0);
    t.register(addr(2), 5);
    let order = [1u8, 2, 1, 1, 2];
    let mut seen: Vec<(u8, u64)> = Vec::new();
    for a in order {
        let n = t.next(&addr(a)).unwrap();
        assert!(!seen.contains(&(a, n)));
        seen.push((a, n));
    }
    assert_eq!(seen, vec![(1, 0), (2, 5), (1, 1), (1, 2), (2, 6)]);
}

#[test]
fn selector_is_first_four_bytes_big_endian() {
    let data = Some(vec![0xa9, 0x05, 0x9c, 0xbb, 0x00, 0x01]);
    assert_eq!(selector_bucket(&data), Ok(Some(0xa905_9cbb)));
    assert_eq!(selector_bucket(&Some(vec![1, 2, 3, 4])), Ok(Some(0x0102_0304)));
}

#[test]
fn plain_transfer_has_no_selector() {
    assert_eq!(selector_bucket(&None), Ok(None));
    assert_eq!(selector_bucket(&Some(vec![])), Ok(None));
}

#[test]
fn short_call_data_is_malformed() {
    assert_eq!(selector_bucket(&Some(vec![0xa9, 0x05])), Err(SelectorError::Malformed));
}

#[test]
fn gas_price_escalates_one_gwei_per_position() {
    assert_eq!(escalated_gas_price(100, 0), Some(100));
    assert_eq!(escalated_gas_price(100, 3), Some(100 + 3 * GWEI));
    assert_eq!(escalated_gas_price(u128::MAX, 1), None);
    let prices: Vec<u128> = (0..5).map(|i| escalated_gas_price(20 * GWEI, i).unwrap()).collect();
    for w in prices.windows(2) {
        assert_eq!(w[1] - w[0], GWEI);
    }
}

#[test]
fn flushing_empty_buffer_skips_storage() {
    let c = ResultCache::new();
    assert_eq!(c.plan_flush(Some(42), 10), FlushStep::Empty);
    assert_eq!(c.len(), 0);
}

#[test]
fn flush_without_run_id_is_skipped() {
    let mut c = ResultCache::new();
    c.record(None, record(1, 3));
    assert_eq!(c.len(), 0);
    assert_eq!(c.plan_flush(None, 3), FlushStep::Skip);
}

#[test]
fn flush_persists_and_removes_records() {
    let mut c = ResultCache::new();
    c.record(Some(42), record(1, 3));
    c.record(Some(42), record(2, 3));
    assert_eq!(c.plan_flush(Some(42), 3), FlushStep::Persist { run_id: 42, block_number: 3, count: 2 });
    c.record(Some(42), record(3, 4));
    assert_eq!(c.complete_flush(2, true), Ok(1));
    assert_eq!(c.pending()[0].tx_hash, vec![3u8; 32]);
}

#[test]
fn failed_flush_keeps_records() {
    let mut c = ResultCache::new();
    c.record(Some(42), record(1, 3));
    assert_eq!(c.complete_flush(1, false), Err(FlushError::StorageFailed));
    assert_eq!(c.len(), 1);
}

#[test]
fn drain_ends_cleanly_when_storage_succeeds() {
    let (s, a) = step(DrainState::Streaming { persist: true }, DrainEvent::StreamEnded { last_block: 9 });
    assert_eq!(a, DrainAction::AwaitTasks);
    let (s, a) = step(s, DrainEvent::TasksFinished);
    assert_eq!(a, DrainAction::Flush { block_number: 9 });
    let (s, a) = step(s, DrainEvent::FlushReported { remaining: Some(0) });
    assert_eq!(s, DrainState::Done { clean: true });
    assert_eq!(a, DrainAction::Finish);
}

#[test]
fn drain_times_out_when_storage_always_fails() {
    let (mut s, _) = step(DrainState::AwaitingTasks { block_number: 5, persist: true }, DrainEvent::TasksFinished);
    let mut flushes = 1u32;
    let mut tags = vec![5u64];
    loop {
        let (s2, a) = step(s, DrainEvent::FlushReported { remaining: None });
        s = s2;
        match a {
            DrainAction::Flush { block_number } => {
                flushes += 1;
                tags.push(block_number);
            }
            DrainAction::Finish => break,
            _ => panic!("unexpected action"),
        }
        assert!(flushes <= DRAIN_ATTEMPTS);
    }
    assert_eq!(flushes, 12);
    assert_eq!(s, DrainState::Done { clean: false });
    assert_eq!(tags, (5..17).collect::<Vec<u64>>());
}

#[test]
fn drain_without_run_id_finishes_at_once() {
    let (s, a) = step(DrainState::AwaitingTasks { block_number: 5, persist: false }, DrainEvent::TasksFinished);
    assert_eq!(s, DrainState::Done { clean: true });
    assert_eq!(a, DrainAction::Finish);
}

#[test]
fn batches_cover_exactly_blocks_times_per_block() {
    assert_eq!(spam_total(10, 3), Some(30));
    assert_eq!(spam_total(usize::MAX, 2), None);
    assert_eq!(batch_bounds(0, 10, 30), (0, 10));
    assert_eq!(batch_bounds(2, 10, 30), (20, 30));
    let mut sum = 0;
    for i in 0..3 {
        let (s, e) = batch_bounds(i, 10, 25);
        sum += e - s;
    }
    assert_eq!(sum, 25);
    assert_eq!(batch_bounds(2, 10, 25), (20, 25));
    assert_eq!(batch_bounds(3, 10, 25), (25, 25));
}

#[test]
fn one_estimate_per_selector() {
    let mut sp = BlockwiseSpammer::new(&vec![(addr(1), 0), (addr(2), 0)]);
    let sel = vec![0xa9, 0x05, 0x9c, 0xbb, 0, 0];
    let batch = vec![
        single(call(1, sel.clone())),
        single(call(2, sel.clone())),
        ExecutionIntent::Bundle { txs: vec![call(1, sel.clone()), transfer(2)], kind: None },
        single(transfer(1)),
    ];
    let req = sp.pending_estimates(&batch);
    assert_eq!(req.len(), 2);
    assert_eq!((req[0].intent, req[0].member, req[0].bucket), (0, 0, Some(0xa905_9cbb)));
    assert_eq!((req[1].intent, req[1].member, req[1].bucket), (2, 1, None));
    sp.record_gas_limit(Some(0xa905_9cbb), 50_000);
    sp.record_gas_limit(Some(0xa905_9cbb), 99_999);
    assert_eq!(sp.gas_limit_for(Some(0xa905_9cbb)), Some(50_000));
    let req = sp.pending_estimates(&batch);
    assert_eq!(req.len(), 1);
    sp.record_gas_limit(None, 21_000);
    assert_eq!(sp.pending_estimates(&batch).len(), 0);
}

#[test]
fn two_blocks_of_three_transfers_persist_six_records() {
    let run_id = Some(42u64);
    let mut sp = BlockwiseSpammer::new(&vec![(addr(1), 5)]);
    let intents: Vec<ExecutionIntent> = (0..6).map(|_| single(transfer(1))).collect();
    let mut cache = ResultCache::new();
    let mut persisted = 0usize;
    let mut flush_calls = 0usize;
    let mut streaming = DrainState::Streaming { persist: true };
    let total = spam_total(3, 2).unwrap();
    assert_eq!(total, 6);
    for block in 0..2usize {
        for r in sp.pending_estimates(&intents) {
            assert_eq!(r.bucket, None);
            sp.record_gas_limit(r.bucket, 21_000);
        }
        let (s, e) = batch_bounds(block, 3, intents.len());
        for (pos, intent) in intents[s..e].iter().enumerate() {
            match sp.prepare_intent(intent, pos, GWEI, 1).unwrap() {
                Payload::Single(p) => {
                    assert_eq!(p.gas_limit, 21_000);
                    cache.record(run_id, record(p.nonce as u8, 100 + block as u64));
                }
                Payload::Bundle(_) => panic!("expected a single transaction"),
            }
        }
        let (next, action) = step(streaming, DrainEvent::BlockDispatched { block_number: 100 + block as u64 });
        streaming = next;
        assert_eq!(action, DrainAction::Flush { block_number: 100 + block as u64 });
        flush_calls += 1;
        if let FlushStep::Persist { count, .. } = cache.plan_flush(run_id, 100 + block as u64) {
            persisted += count;
            assert_eq!(cache.complete_flush(count, true), Ok(0));
        }
    }
    let (s, _) = step(streaming, DrainEvent::StreamEnded { last_block: 101 });
    let (mut s, _) = step(s, DrainEvent::TasksFinished);
    while let DrainState::Draining { block_number, .. } = s {
        flush_calls += 1;
        let remaining = match cache.plan_flush(run_id, block_number) {
            FlushStep::Empty => Some(0),
            FlushStep::Persist { count, .. } => cache.complete_flush(count, true).ok(),
            FlushStep::Skip => None,
        };
        s = step(s, DrainEvent::FlushReported { remaining }).0;
    }
    assert_eq!(s, DrainState::Done { clean: true });
    assert_eq!(persisted, 6);
    assert_eq!(sp.nonce_of(&addr(1)), Some(11));
    assert!(flush_calls >= 3);
}

#[test]
fn bundle_members_share_position_gas_price() {
    let mut sp = BlockwiseSpammer::new(&vec![(addr(1), 0), (addr(2), 3)]);
    sp.record_gas_limit(None, 21_000);
    let bundle = ExecutionIntent::Bundle { txs: vec![transfer(1), transfer(2)], kind: None };
    match sp.prepare_intent(&bundle, 2, 5 * GWEI, 31337).unwrap() {
        Payload::Bundle(ps) => {
            assert_eq!(ps.len(), 2);
            assert_eq!(ps[0].gas_price, 7 * GWEI);
            assert_eq!(ps[1].gas_price, 7 * GWEI);
            assert_eq!((ps[0].nonce, ps[1].nonce), (0, 3));
            assert_eq!(ps[1].chain_id, 31337);
            assert_eq!(ps[0].signer.bytes, addr(1).bytes);
        }
        Payload::Single(_) => panic!("a bundle is submitted as one payload"),
    }
}

#[test]
fn bundle_with_same_sender_takes_consecutive_nonces() {
    let mut sp = BlockwiseSpammer::new(&vec![(addr(1), 4)]);
    sp.record_gas_limit(None, 21_000);
    let bundle = ExecutionIntent::Bundle { txs: vec![transfer(1), transfer(1)], kind: None };
    match sp.prepare_intent(&bundle, 0, GWEI, 1).unwrap() {
        Payload::Bundle(ps) => assert_eq!((ps[0].nonce, ps[1].nonce), (4, 5)),
        Payload::Single(_) => panic!("expected a bundle"),
    }
    assert_eq!(sp.nonce_of(&addr(1)), Some(6));
}

#[test]
fn failed_estimate_aborts_only_its_intent() {
    let mut sp = BlockwiseSpammer::new(&vec![(addr(1), 0)]);
    let batch = vec![single(transfer(1)), single(call(1, vec![1, 2, 3, 4])), single(transfer(1))];
    // the estimate of the transfer bucket succeeded; the one of selector 0x01020304 failed
    sp.record_gas_limit(None, 21_000);
    let mut sent = Vec::new();
    for (pos, intent) in batch.iter().enumerate() {
        match sp.prepare_intent(intent, pos, GWEI, 1) {
            Ok(Payload::Single(p)) => sent.push((pos, p.nonce)),
            Ok(Payload::Bundle(_)) => panic!("expected a single transaction"),
            Err(e) => assert_eq!(e, PrepareError::GasLimitUnknown { bucket: Some(0x0102_0304) }),
        }
    }
    assert_eq!(sent, vec![(0, 0), (2, 1)]);
}

#[test]
fn preparation_errors() {
    let mut sp = BlockwiseSpammer::new(&vec![(addr(1), u64::MAX)]);
    sp.record_gas_limit(None, 21_000);
    let no_from = TxRequest { from: None, to: None, input: None };
    assert_eq!(sp.prepare_tx_req(&no_from, 1, 1).unwrap_err(), PrepareError::MissingFrom);
    assert_eq!(sp.prepare_tx_req(&transfer(9), 1, 1).unwrap_err(), PrepareError::UnregisteredSender);
    assert_eq!(sp.prepare_tx_req(&call(1, vec![1, 2]), 1, 1).unwrap_err(), PrepareError::MalformedCallData);
    assert_eq!(sp.prepare_tx_req(&transfer(1), 1, 1).unwrap_err(), PrepareError::NonceExhausted);
    assert_eq!(
        sp.prepare_intent(&single(transfer(1)), 1, u128::MAX, 1).unwrap_err(),
        PrepareError::GasPriceOverflow
    );
}

#[test]
fn registered_sender_is_prepared() {
    let mut sp = BlockwiseSpammer::new(&vec![(addr(1), 0)]);
    sp.record_gas_limit(None, 21_000);
    let ok = sp.prepare_tx_req(&transfer(1), 9, 1).unwrap();
    assert_eq!((ok.nonce, ok.gas_price, ok.gas_limit), (0, 9, 21_000));
    assert_eq!(sp.nonce_of(&addr(1)), Some(1));
    assert_eq!(sp.nonce_of(&addr(3)), None);
}

#[test]
fn batch_positions_pay_escalated_prices() {
    let mut sp = BlockwiseSpammer::new(&vec![(addr(1), 0), (addr(2), 10)]);
    sp.record_gas_limit(None, 21_000);
    let batch = vec![
        single(transfer(1)),
        ExecutionIntent::Bundle { txs: vec![transfer(1), transfer(2)], kind: None },
        single(call(2, vec![9, 9, 9, 9])),
        single(transfer(2)),
    ];
    let outs = sp.prepare_batch(&batch, 3 * GWEI, 1).unwrap();
    assert_eq!(outs.len(), 4);
    match &outs[0] {
        Ok(Payload::Single(p)) => assert_eq!((p.gas_price, p.nonce), (3 * GWEI, 0)),
        other => panic!("unexpected {other:?}"),
    }
    match &outs[1] {
        Ok(Payload::Bundle(ps)) => {
            assert_eq!(ps.len(), 2);
            assert!(ps.iter().all(|p| p.gas_price == 4 * GWEI));
            assert_eq!((ps[0].nonce, ps[1].nonce), (1, 10));
        }
        other => panic!("unexpected {other:?}"),
    }
    assert_eq!(outs[2].as_ref().unwrap_err(), &PrepareError::GasLimitUnknown { bucket: Some(0x0909_0909) });
    match &outs[3] {
        Ok(Payload::Single(p)) => assert_eq!((p.gas_price, p.nonce), (6 * GWEI, 11)),
        other => panic!("unexpected {other:?}"),
    }
}

#[test]
fn fatal_error_stops_the_batch() {
    let mut sp = BlockwiseSpammer::new(&vec![(addr(1), 0)]);
    sp.record_gas_limit(None, 21_000);
    let batch = vec![single(transfer(1)), single(transfer(7)), single(transfer(1))];
    assert_eq!(sp.prepare_batch(&batch, GWEI, 1).unwrap_err(), PrepareError::UnregisteredSender);
    assert!(PrepareError::UnregisteredSender.is_fatal());
    assert!(!PrepareError::GasLimitUnknown { bucket: None }.is_fatal());
}

#[test]
fn empty_bundle_is_rejected() {
    let mut sp = BlockwiseSpammer::new(&vec![(addr(1), 0)]);
    let empty = ExecutionIntent::Bundle { txs: vec![], kind: Some("bundle".to_string()) };
    assert_eq!(sp.prepare_intent(&empty, 0, GWEI, 1).unwrap_err(), PrepareError::EmptyBundle);
    assert!(!PrepareError::EmptyBundle.is_fatal());
}

#[test]
fn failed_estimate_is_not_requested_again() {
    let mut sp = BlockwiseSpammer::new(&vec![(addr(1), 0)]);
    let batch = vec![single(call(1, vec![1, 2, 3, 4])), single(transfer(1))];
    let req = sp.pending_estimates(&batch);
    assert_eq!(req.len(), 2);
    sp.record_failed_estimate(Some(0x0102_0304));
    sp.record_gas_limit(None, 21_000);
    assert_eq!(sp.pending_estimates(&batch).len(), 0);
    let outs = sp.prepare_batch(&batch, GWEI, 1).unwrap();
    assert_eq!(outs[0].as_ref().unwrap_err(), &PrepareError::GasLimitUnknown { bucket: Some(0x0102_0304) });
    assert!(outs[1].is_ok());
}

#[test]
fn failed_estimate_in_batch_drops_only_its_position() {
    let mut sp = BlockwiseSpammer::new(&vec![(addr(1), 0)]);
    let batch = vec![single(transfer(1)), single(call(1, vec![5, 6, 7, 8])), single(transfer(1))];
    sp.record_gas_limit(None, 21_000);
    sp.record_failed_estimate(Some(0x0506_0708));
    let outs = sp.prepare_batch(&batch, GWEI, 1).unwrap();
    assert_eq!(outs.len(), 3);
    match (&outs[0], &outs[2]) {
        (Ok(Payload::Single(a)), Ok(Payload::Single(b))) => {
            assert_eq!((a.nonce, b.nonce), (0, 1));
            assert_eq!((a.gas_price, b.gas_price), (GWEI, 3 * GWEI));
        }
        other => panic!("unexpected {other:?}"),
    }
    assert!(outs[1].is_err());
}

#[test]
fn streaming_flushes_after_each_block_only_with_run_id() {
    let (s, a) = step(DrainState::Streaming { persist: true }, DrainEvent::BlockDispatched { block_number: 7 });
    assert_eq!(s, DrainState::Streaming { persist: true });
    assert_eq!(a, DrainAction::Flush { block_number: 7 });
    let (s, a) = step(DrainState::Streaming { persist: false }, DrainEvent::BlockDispatched { block_number: 7 });
    assert_eq!(s, DrainState::Streaming { persist: false });
    assert_eq!(a, DrainAction::Wait);
}
