use parity_scale_codec::{Compact, Encode};
use sender::block::{BlockClock, BlockError, CallKind, Extrinsic};

fn call(pallet: &str, variant: &str) -> Option<Extrinsic> {
    Some(Extrinsic { pallet: pallet.to_string(), variant: variant.to_string(), fields: vec![] })
}

fn stamp(t: u64) -> Option<Extrinsic> {
    Some(Extrinsic {
        pallet: "Timestamp".to_string(),
        variant: "set".to_string(),
        fields: Compact(t).encode(),
    })
}

#[test]
fn calls_are_told_apart_by_both_names() {
    let kind = |pallet: &str, variant: &str| call(pallet, variant).unwrap().kind();
    assert_eq!(kind("Timestamp", "set"), CallKind::Timestamp);
    assert_eq!(kind("Balances", "transfer_keep_alive"), CallKind::Transfer);
    assert_eq!(kind("Nfts", "transfer"), CallKind::Transfer);
    assert_eq!(kind("Balances", "transfer"), CallKind::Other);
    assert_eq!(kind("Nfts", "transfer_keep_alive"), CallKind::Other);
    assert_eq!(kind("Timestamp", "Set"), CallKind::Other);
    assert_eq!(kind("", ""), CallKind::Other);
}

#[test]
fn a_block_moves_the_clock_and_is_counted() {
    let mut clock = BlockClock::new();
    let block = vec![
        stamp(1_700_000_000_000),
        call("Balances", "transfer_keep_alive"),
        None,
        call("Nfts", "transfer"),
        call("System", "remark"),
    ];
    assert_eq!(clock.record(&block), Ok(2));
    assert_eq!(clock.timestamp, 1_700_000_000_000);
    assert_eq!(clock.block_time, 1_700_000_000_000);
    let next = vec![stamp(1_700_000_006_000), call("Balances", "transfer_keep_alive")];
    assert_eq!(clock.record(&next), Ok(1));
    assert_eq!(clock.block_time, 6_000);
}

#[test]
fn a_block_without_timestamp_keeps_the_clock() {
    let mut clock = BlockClock { timestamp: 9_000, block_time: 3_000 };
    assert_eq!(clock.record(&vec![None, call("Nfts", "transfer")]), Ok(1));
    assert_eq!(clock, BlockClock { timestamp: 9_000, block_time: 3_000 });
    assert_eq!(clock.record(&vec![]), Ok(0));
    assert_eq!(clock, BlockClock { timestamp: 9_000, block_time: 3_000 });
}

#[test]
fn blocks_in_parts_amount_to_the_whole() {
    let mut whole = BlockClock::new();
    let mut parts = BlockClock::new();
    let all = vec![stamp(5), call("Nfts", "transfer"), stamp(8), call("Nfts", "transfer")];
    assert_eq!(whole.record(&all), Ok(2));
    assert_eq!(parts.record(&vec![stamp(5), call("Nfts", "transfer")]), Ok(1));
    assert_eq!(parts.record(&vec![stamp(8), call("Nfts", "transfer")]), Ok(1));
    assert_eq!(whole, parts);
    assert_eq!(whole, BlockClock { timestamp: 8, block_time: 3 });
}

#[test]
fn an_undecodable_timestamp_is_an_error() {
    let mut clock = BlockClock { timestamp: 9, block_time: 3 };
    let block = vec![call("Nfts", "transfer"), call("Timestamp", "set"), stamp(1)];
    assert_eq!(clock.record(&block), Err(BlockError::TimestampUndecodable));
    assert_eq!(clock, BlockClock { timestamp: 9, block_time: 3 });
}

#[test]
fn an_earlier_timestamp_is_an_error() {
    let mut clock = BlockClock { timestamp: 9, block_time: 3 };
    let block = vec![stamp(10), stamp(9), call("Timestamp", "set")];
    assert_eq!(clock.record(&block), Err(BlockError::TimestampBackwards));
    assert_eq!(clock, BlockClock { timestamp: 9, block_time: 3 });
    assert_eq!(clock.record(&vec![stamp(9)]), Ok(0));
    assert_eq!(clock, BlockClock { timestamp: 9, block_time: 0 });
}

#[test]
fn throughput_is_per_second() {
    let clock = BlockClock { timestamp: 12_000, block_time: 6_000 };
    assert_eq!(clock.tps(6_000), Some(1_000));
    assert_eq!(clock.tps(7), Some(1));
    assert_eq!(clock.tps(5), Some(0));
    assert_eq!(clock.tps(u64::MAX / 1000), Some(u64::MAX / 1000 * 1000 / 6_000));
    assert_eq!(clock.tps(u64::MAX / 1000 + 1), None);
    assert_eq!(BlockClock::new().tps(5), None);
}
