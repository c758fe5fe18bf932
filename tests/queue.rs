use std::time::{Duration, Instant};
use text_embeddings_core::batch::{decide, Admission, Limits};
use text_embeddings_core::entry::{Encoding, Entry, Metadata};
use text_embeddings_core::queue::QueueState;
use tokio::sync::oneshot;

type Reply = oneshot::Receiver<u32>;

fn entry(tokens: u32, first_id: u32) -> (Entry<u32>, Reply) {
    let (tx, rx) = oneshot::channel();
    let input_ids: Vec<u32> = (0..tokens).map(|i| first_id + i).collect();
    let token_type_ids: Vec<u32> = (0..tokens).map(|_| 0).collect();
    let position_ids: Vec<u32> = (0..tokens).collect();
    let e = Entry {
        encoding: Encoding {
            input_ids,
            token_type_ids,
            position_ids,
        },
        metadata: Metadata {
            response_tx: tx,
            span: tracing::Span::none(),
            tokenization: Duration::from_millis(1),
            queue_time: Instant::now(),
            batch_time: None,
            prompt_tokens: tokens as usize,
        },
    };
    (e, rx)
}

#[test]
fn scenario_a_token_budget_splits_batches() {
    let mut q: QueueState<u32> = QueueState::new(10, None, 8);
    let mut replies = Vec::new();
    for k in 0..3u32 {
        let (e, rx) = entry(4, 100 * (k + 1));
        replies.push(rx);
        q.append(e);
    }
    let first = q.next_batch();
    assert_eq!(first.dropped, 0);
    let (meta, batch) = first.batch.expect("a batch");
    assert_eq!(meta.len(), 2);
    assert_eq!(meta[0].prompt_tokens, 4);
    assert_eq!(batch.cumulative_seq_lengths, vec![0, 4, 8]);
    assert_eq!(batch.input_ids, vec![100, 101, 102, 103, 200, 201, 202, 203]);
    assert_eq!(batch.position_ids, vec![0, 1, 2, 3, 0, 1, 2, 3]);
    assert_eq!(batch.token_type_ids, vec![0; 8]);
    assert_eq!(batch.max_length, 4);
    assert_eq!(q.len(), 1);

    let second = q.next_batch();
    let (meta, batch) = second.batch.expect("a batch");
    assert_eq!(meta.len(), 1);
    assert_eq!(batch.cumulative_seq_lengths, vec![0, 4]);
    assert_eq!(batch.input_ids, vec![300, 301, 302, 303]);
    assert_eq!(q.len(), 0);
}

#[test]
fn scenario_b_request_budget_closes_batch() {
    let mut q: QueueState<u32> = QueueState::new(10, Some(2), 8);
    let mut replies = Vec::new();
    for k in 0..3u32 {
        let (e, rx) = entry(3, 10 * k);
        replies.push(rx);
        q.append(e);
    }
    let (meta, batch) = q.next_batch().batch.expect("a batch");
    assert_eq!(meta.len(), 2);
    assert_eq!(batch.cumulative_seq_lengths, vec![0, 3, 6]);
    assert_eq!(batch.input_ids, vec![0, 1, 2, 10, 11, 12]);
    assert_eq!(q.len(), 1);
}

#[test]
fn scenario_c_oversized_head_stays_pending() {
    let mut q: QueueState<u32> = QueueState::new(10, None, 8);
    let (e, _rx) = entry(12, 0);
    q.append(e);
    let r = q.next_batch();
    assert!(r.batch.is_none());
    assert_eq!(r.dropped, 0);
    assert_eq!(q.len(), 1);
    let again = q.next_batch();
    assert!(again.batch.is_none());
    assert_eq!(q.len(), 1);
}

#[test]
fn scenario_d_cancelled_entry_is_dropped() {
    let mut q: QueueState<u32> = QueueState::new(10, None, 8);
    let (first, first_rx) = entry(2, 0);
    let (second, _second_rx) = entry(3, 50);
    q.append(first);
    q.append(second);
    drop(first_rx);
    let r = q.next_batch();
    assert_eq!(r.dropped, 1);
    let (meta, batch) = r.batch.expect("a batch");
    assert_eq!(meta.len(), 1);
    assert_eq!(meta[0].prompt_tokens, 3);
    assert_eq!(batch.input_ids, vec![50, 51, 52]);
    assert_eq!(batch.cumulative_seq_lengths, vec![0, 3]);
    assert_eq!(q.len(), 0);
}

#[test]
fn empty_queue_gives_no_batch_and_stays_empty() {
    let mut q: QueueState<u32> = QueueState::new(10, Some(4), 8);
    for _ in 0..2 {
        let r = q.next_batch();
        assert!(r.batch.is_none());
        assert_eq!(r.dropped, 0);
        assert_eq!(q.len(), 0);
    }
}

#[test]
fn cancelled_entry_uses_no_budget() {
    let mut q: QueueState<u32> = QueueState::new(8, Some(2), 8);
    let (gone, gone_rx) = entry(8, 0);
    let (a, _a_rx) = entry(4, 10);
    let (b, _b_rx) = entry(4, 20);
    q.append(gone);
    q.append(a);
    q.append(b);
    drop(gone_rx);
    let r = q.next_batch();
    assert_eq!(r.dropped, 1);
    let (meta, batch) = r.batch.expect("a batch");
    assert_eq!(meta.len(), 2);
    assert_eq!(batch.input_ids, vec![10, 11, 12, 13, 20, 21, 22, 23]);
    assert_eq!(batch.cumulative_seq_lengths, vec![0, 4, 8]);
    assert_eq!(q.len(), 0);
}

#[test]
fn fifo_order_is_kept_across_rounds() {
    let mut q: QueueState<u32> = QueueState::new(5, None, 8);
    let mut replies = Vec::new();
    for (k, n) in [3u32, 3, 2, 4, 1].iter().enumerate() {
        let (e, rx) = entry(*n, 100 * k as u32);
        replies.push(rx);
        q.append(e);
    }
    let mut order = Vec::new();
    while let Some((meta, batch)) = q.next_batch().batch {
        assert!(batch.input_ids.len() <= 5);
        assert_eq!(batch.cumulative_seq_lengths.len(), meta.len() + 1);
        let mut start = 0usize;
        for w in batch.cumulative_seq_lengths.windows(2) {
            order.push(batch.input_ids[start] / 100);
            start = w[1] as usize;
        }
    }
    assert_eq!(order, vec![0, 1, 2, 3, 4]);
    assert_eq!(q.len(), 0);
}

#[test]
fn batch_time_is_one_snapshot() {
    let mut q: QueueState<u32> = QueueState::new(100, None, 8);
    let mut replies = Vec::new();
    for k in 0..3u32 {
        let (e, rx) = entry(5, k);
        replies.push(rx);
        q.append(e);
    }
    let (meta, batch) = q.next_batch().batch.expect("a batch");
    assert_eq!(meta.len(), 3);
    let t = meta[0].batch_time.expect("stamped");
    assert!(meta.iter().all(|m| m.batch_time == Some(t)));
    assert!(t >= meta[2].queue_time);
    assert_eq!(batch.max_length, 5);
    assert_eq!(*batch.cumulative_seq_lengths.last().unwrap() as usize, batch.input_ids.len());
}

#[test]
fn max_length_is_longest_entry() {
    let mut q: QueueState<u32> = QueueState::new(100, None, 8);
    let mut replies = Vec::new();
    for n in [2u32, 7, 3] {
        let (e, rx) = entry(n, 0);
        replies.push(rx);
        q.append(e);
    }
    let (_, batch) = q.next_batch().batch.expect("a batch");
    assert_eq!(batch.max_length, 7);
    assert_eq!(batch.cumulative_seq_lengths, vec![0, 2, 9, 12]);
}

#[test]
fn zero_request_budget_never_matches() {
    let mut q: QueueState<u32> = QueueState::new(10, Some(0), 8);
    let mut replies = Vec::new();
    for k in 0..3u32 {
        let (e, rx) = entry(3, k);
        replies.push(rx);
        q.append(e);
    }
    let (meta, _) = q.next_batch().batch.expect("a batch");
    assert_eq!(meta.len(), 3);
}

#[test]
fn exact_fit_is_taken() {
    let mut q: QueueState<u32> = QueueState::new(10, None, 8);
    let (a, _a_rx) = entry(6, 0);
    let (b, _b_rx) = entry(4, 0);
    q.append(a);
    q.append(b);
    let (meta, batch) = q.next_batch().batch.expect("a batch");
    assert_eq!(meta.len(), 2);
    assert_eq!(batch.input_ids.len(), 10);
}

#[test]
fn limits_are_kept() {
    let q: QueueState<u32> = QueueState::new(512, Some(32), 64);
    let lim = q.limits();
    assert_eq!(lim.max_batch_tokens, 512);
    assert_eq!(lim.max_batch_requests, Some(32));
}

#[test]
fn decide_each_case() {
    let lim = Limits {
        max_batch_tokens: 10,
        max_batch_requests: Some(3),
    };
    assert_eq!(decide(0, 0, 4, true, lim), Admission::Drop);
    assert_eq!(decide(8, 1, 4, false, lim), Admission::Defer);
    assert_eq!(decide(4, 1, 4, false, lim), Admission::Take);
    assert_eq!(decide(4, 2, 4, false, lim), Admission::TakeLast);
    assert_eq!(decide(6, 2, 4, false, lim), Admission::TakeLast);
    assert_eq!(decide(0, 0, 11, false, lim), Admission::Defer);
    let open = Limits {
        max_batch_tokens: 10,
        max_batch_requests: None,
    };
    assert_eq!(decide(0, 1000, 10, false, open), Admission::Take);
}
