use crossbeam_channel::{bounded, TrySendError};
use seeker::lab::{TaskStatus, CHANNEL_BOUND};
use seeker::sim::Conclusion;

#[test]
fn full_channel_blocks_the_next_send_until_drained() {
    // a bounded channel at capacity refuses further sends until the
    // consumer drains at least one message (checked synchronously with
    // try_send, which reports Full instead of blocking)
    let (tx, rx) = bounded::<TaskStatus>(2);
    for step in 0..2usize {
        tx.send(TaskStatus { experiment_id: 0, step, conclusion: None }).unwrap();
    }
    assert!(tx.is_full());
    match tx.try_send(TaskStatus { experiment_id: 0, step: 2, conclusion: None }) {
        Err(TrySendError::Full(_)) => {}
        _ => panic!("a send beyond the bound must not go through"),
    }
    let first = rx.try_recv().unwrap();
    assert_eq!(first.step, 0);
    tx.try_send(TaskStatus { experiment_id: 0, step: 2, conclusion: None })
        .expect("draining one message frees one slot");
}

#[test]
fn messages_from_one_sender_arrive_in_order() {
    let (tx, rx) = bounded::<TaskStatus>(CHANNEL_BOUND);
    for step in 0..10usize {
        let conclusion = if step == 9 { Some(Conclusion::Extinct) } else { None };
        tx.send(TaskStatus { experiment_id: 4, step, conclusion }).unwrap();
    }
    drop(tx);
    let mut last = None;
    while let Ok(st) = rx.try_recv() {
        assert_eq!(st.experiment_id, 4);
        if let Some(prev) = last {
            assert!(st.step > prev, "per-sender order is kept");
        }
        last = Some(st.step);
    }
    assert_eq!(last, Some(9));
}
