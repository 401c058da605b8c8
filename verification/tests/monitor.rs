use parity_scale_codec::{Compact, Encode};
use sender::block::{BlockClock, BlockError, Extrinsic};
use sender::monitor::{Action, Event, Monitor, Phase, RoundEnd, RETRY_MS};

fn block(t: u64, transfers: usize) -> Event {
    let mut extrinsics = vec![Some(Extrinsic {
        pallet: "Timestamp".to_string(),
        variant: "set".to_string(),
        fields: Compact(t).encode(),
    })];
    for _ in 0..transfers {
        extrinsics.push(Some(Extrinsic {
            pallet: "Balances".to_string(),
            variant: "transfer_keep_alive".to_string(),
            fields: vec![],
        }));
    }
    Event::Extrinsics(extrinsics)
}

#[test]
fn a_new_block_is_kept_read_and_counted() {
    let mut monitor = Monitor::new();
    assert_eq!(monitor.phase, Phase::Listening);
    assert_eq!(monitor.step(Event::Block), Ok(Action::KeepAndRead));
    assert_eq!(
        monitor.step(block(6_000, 3)),
        Ok(Action::Count { tx_count: 3, end: RoundEnd::Listen })
    );
    assert_eq!(monitor.round, 1);
    assert_eq!(monitor.clock, BlockClock { timestamp: 6_000, block_time: 6_000 });
}

#[test]
fn a_lost_subscription_is_tried_until_it_is_back() {
    let mut monitor = Monitor::new();
    monitor.step(Event::Block).unwrap();
    monitor.step(block(6_000, 3)).unwrap();
    assert_eq!(monitor.step(Event::Lost), Ok(Action::Subscribe));
    for _ in 0..5 {
        assert_eq!(
            monitor.step(Event::SubscribeFailed),
            Ok(Action::SubscribeAfter { ms: RETRY_MS })
        );
    }
    assert_eq!(RETRY_MS, 500);
    assert_eq!(monitor.step(Event::Subscribed), Ok(Action::Read));
    assert_eq!(monitor.round, 1);
    assert_eq!(
        monitor.step(block(6_000, 3)),
        Ok(Action::Count { tx_count: 3, end: RoundEnd::Listen })
    );
    assert_eq!(monitor.clock, BlockClock { timestamp: 6_000, block_time: 0 });
}

#[test]
fn senders_restart_every_ten_rounds() {
    let mut monitor = Monitor::new();
    let mut restarts = 0;
    for k in 1..=35u64 {
        assert_eq!(monitor.step(Event::Block), Ok(Action::KeepAndRead));
        let end = if k % 3 == 0 {
            match monitor.step(Event::Unreadable) {
                Ok(Action::Skip { end }) => end,
                _ => panic!("the round goes on"),
            }
        } else {
            match monitor.step(block(k, 1)) {
                Ok(Action::Count { tx_count, end }) => {
                    assert_eq!(tx_count, 1);
                    end
                }
                _ => panic!("the round goes on"),
            }
        };
        assert_eq!(end == RoundEnd::Restart, k % 10 == 0);
        if end == RoundEnd::Restart {
            restarts += 1;
        }
    }
    assert_eq!(restarts, 3);
    assert_eq!(monitor.round, 5);
    assert_eq!(monitor.clock.timestamp, 35);
}

#[test]
fn a_bad_block_leaves_the_monitor_alone() {
    let mut monitor = Monitor::new();
    monitor.step(Event::Block).unwrap();
    monitor.step(block(100, 0)).unwrap();
    monitor.step(Event::Block).unwrap();
    let before = monitor;
    assert_eq!(monitor.step(block(99, 0)), Err(BlockError::TimestampBackwards));
    assert_eq!(monitor, before);
}
