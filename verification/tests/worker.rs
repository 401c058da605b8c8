use sender::worker::{transfer_call, Action, Event, Phase, Worker, PAUSE_MS, POOL_LIMIT};

fn free() -> Event {
    Event::Counters { sent: 0, in_block: 0 }
}

fn full() -> Event {
    Event::Counters { sent: POOL_LIMIT + 1, in_block: 0 }
}

#[test]
fn a_new_sender_submits_at_once() {
    let mut worker = Worker::new(1000, 7);
    assert_eq!(worker.step(free()), Action::Submit { wait_ms: 0, nonce: 7 });
    assert_eq!(worker.phase, Phase::Submitting);
}

#[test]
fn a_sender_waits_what_is_left_of_its_time() {
    let mut worker = Worker::new(1000, 7);
    worker.step(free());
    assert_eq!(worker.step(Event::Accepted { elapsed_ms: 300 }), Action::CountSent);
    assert_eq!(worker.step(free()), Action::Submit { wait_ms: 700, nonce: 8 });
    assert_eq!(worker.step(Event::Accepted { elapsed_ms: 5000 }), Action::CountSent);
    assert_eq!(worker.step(free()), Action::Submit { wait_ms: 0, nonce: 9 });
    assert_eq!(worker.step(Event::Accepted { elapsed_ms: (1 << 64) + 400 }), Action::CountSent);
    assert_eq!(worker.step(free()), Action::Submit { wait_ms: 600, nonce: 10 });
}

#[test]
fn a_refused_sender_fetches_its_nonce() {
    let mut worker = Worker::new(1000, 7);
    worker.step(free());
    assert_eq!(worker.step(Event::Rejected), Action::FetchNonce);
    assert_eq!(worker.phase, Phase::Refreshing);
    assert_eq!(worker.step(Event::Nonce { nonce: 42, elapsed_ms: 250 }), Action::Check);
    assert_eq!(worker.step(full()), Action::Pause { ms: PAUSE_MS });
    assert_eq!(worker.step(free()), Action::Submit { wait_ms: 740, nonce: 42 });
}

#[test]
fn senders_hold_back_beyond_the_limit_only() {
    let mut worker = Worker::new(1000, 0);
    let at = Event::Counters { sent: 12_005, in_block: 5 };
    let beyond = Event::Counters { sent: 12_006, in_block: 5 };
    assert_eq!(worker.step(beyond), Action::Pause { ms: 10 });
    assert_eq!(worker.step(at), Action::Submit { wait_ms: 0, nonce: 0 });
}

#[test]
fn pauses_come_off_the_wait() {
    let mut worker = Worker::new(95, 0);
    worker.step(free());
    worker.step(Event::Accepted { elapsed_ms: 0 });
    for _ in 0..9 {
        assert_eq!(worker.step(full()), Action::Pause { ms: 10 });
    }
    assert_eq!(worker.sleep_time_ms, 5);
    assert_eq!(worker.step(full()), Action::Pause { ms: 10 });
    assert_eq!(worker.step(full()), Action::Pause { ms: 10 });
    assert_eq!(worker.step(free()), Action::Submit { wait_ms: 0, nonce: 1 });
}

#[test]
fn nonces_are_consecutive() {
    let mut worker = Worker::new(10, 100);
    for k in 0..20u64 {
        assert_eq!(worker.step(full()), Action::Pause { ms: 10 });
        match worker.step(free()) {
            Action::Submit { wait_ms, nonce } => {
                assert!(wait_ms <= 10);
                assert_eq!(nonce, 100 + k);
            }
            _ => panic!("no transaction"),
        }
        assert_eq!(worker.step(Event::Accepted { elapsed_ms: 1 }), Action::CountSent);
    }
}

#[test]
fn many_senders_stay_near_the_limit() {
    let mut workers = vec![Worker::new(0, 0); 50];
    let mut sent = 0u64;
    let in_block = 3u64;
    for round in 0..1000usize {
        for worker in workers.iter_mut() {
            let event = match worker.phase {
                Phase::Checking => Event::Counters { sent, in_block },
                _ => Event::Accepted { elapsed_ms: round as u128 },
            };
            if worker.step(event) == Action::CountSent {
                sent += 1;
            }
        }
        let under_way = workers.iter().filter(|w| w.phase == Phase::Submitting).count() as u64;
        assert!(sent + under_way <= in_block + POOL_LIMIT + 50);
    }
    assert!(sent > in_block + POOL_LIMIT);
}

#[test]
fn transfers_keep_the_sender_alive() {
    let call = transfer_call(&[4, 5, 6]);
    assert_eq!(call.pallet, "Balances");
    assert_eq!(call.call, "transfer_keep_alive");
    assert_eq!(call.address, "Id");
    assert_eq!(call.receiver, vec![4, 5, 6]);
    assert_eq!(call.amount, 1);
}
