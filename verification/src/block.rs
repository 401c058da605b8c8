//! What a block tells of the chain's throughput: its transfers and its timestamp.
use crate::scale::{
    compact, compact_value, decode_compact, law_compact_read_back,
    law_compact_value_is_what_was_encoded,
};
use vstd::arithmetic::div_mod::lemma_fundamental_div_mod;
use vstd::prelude::*;

verus! {

/// An extrinsic of a block: the pallet and the call that it names, and the call's encoded
/// arguments.
#[derive(Debug, PartialEq, Eq)]
pub struct Extrinsic {
    pub pallet: String,
    pub variant: String,
    pub fields: Vec<u8>,
}

/// What an extrinsic means to the sender.
#[derive(Clone, Copy, Debug, PartialEq, Eq, Structural)]
pub enum CallKind {
    /// Sets the block's timestamp.
    Timestamp,
    /// Is one of the transactions that are counted.
    Transfer,
    /// Is of no interest.
    Other,
}

/// The kind of a call, by the names of its pallet and its variant.
pub open spec fn call_kind(pallet: Seq<char>, variant: Seq<char>) -> CallKind {
    if pallet == "Timestamp"@ && variant == "set"@ {
        CallKind::Timestamp
    } else if pallet == "Balances"@ && variant == "transfer_keep_alive"@ {
        CallKind::Transfer
    } else if pallet == "Nfts"@ && variant == "transfer"@ {
        CallKind::Transfer
    } else {
        CallKind::Other
    }
}

impl Extrinsic {
    /// Returns the kind of the call.
    pub fn kind(&self) -> (kind: CallKind)
        ensures
            kind == call_kind(self.pallet@, self.variant@),
    {
        if self.pallet == "Timestamp".to_owned() && self.variant == "set".to_owned() {
            CallKind::Timestamp
        } else if self.pallet == "Balances".to_owned() && self.variant
            == "transfer_keep_alive".to_owned() {
            CallKind::Transfer
        } else if self.pallet == "Nfts".to_owned() && self.variant == "transfer".to_owned() {
            CallKind::Transfer
        } else {
            CallKind::Other
        }
    }
}

/// What can be wrong with a block's timestamp.
#[derive(Clone, Copy, Debug, PartialEq, Eq, Structural)]
pub enum BlockError {
    /// The timestamp's argument is no compact number.
    TimestampUndecodable,
    /// The timestamp is earlier than the one before.
    TimestampBackwards,
}

/// Whether an entry of a block is a transaction that counts. An entry is `None` where the
/// extrinsic could not be decoded.
pub open spec fn is_transfer(ex: Option<Extrinsic>) -> bool {
    match ex {
        Some(ex) => call_kind(ex.pallet@, ex.variant@) == CallKind::Transfer,
        None => false,
    }
}

/// Number of transactions in a block that count.
pub open spec fn tx_count(extrinsics: Seq<Option<Extrinsic>>) -> nat {
    extrinsics.filter(|ex: Option<Extrinsic>| is_transfer(ex)).len()
}

/// The chain's time as its blocks tell it, in milliseconds.
#[derive(Clone, Copy, Debug, PartialEq, Eq, Structural)]
pub struct BlockClock {
    /// The latest timestamp.
    pub timestamp: u64,
    /// The time from the timestamp before to the latest one.
    pub block_time: u64,
}

impl BlockClock {
    /// The block time is no longer than the time from zero to the latest timestamp.
    pub open spec fn wf(self) -> bool {
        self.block_time <= self.timestamp
    }

    /// The clock after one entry of a block.
    pub open spec fn tick(self, ex: Option<Extrinsic>) -> Result<BlockClock, BlockError> {
        match ex {
            Some(ex) => if call_kind(ex.pallet@, ex.variant@) == CallKind::Timestamp {
                match compact_value(ex.fields@) {
                    None => Err(BlockError::TimestampUndecodable),
                    Some(t) => if t < self.timestamp {
                        Err(BlockError::TimestampBackwards)
                    } else {
                        Ok(
                            BlockClock {
                                timestamp: t,
                                block_time: (t - self.timestamp) as u64,
                            },
                        )
                    },
                }
            } else {
                Ok(self)
            },
            None => Ok(self),
        }
    }

    /// The clock after all entries of a block in their order, or the first error that comes.
    pub open spec fn after(self, extrinsics: Seq<Option<Extrinsic>>) -> Result<
        BlockClock,
        BlockError,
    >
        decreases extrinsics.len(),
    {
        if extrinsics.len() == 0 {
            Ok(self)
        } else {
            match self.after(extrinsics.drop_last()) {
                Ok(clock) => clock.tick(extrinsics.last()),
                Err(e) => Err(e),
            }
        }
    }

    /// Returns the clock before any block.
    pub fn new() -> (clock: BlockClock)
        ensures
            clock.timestamp == 0,
            clock.block_time == 0,
            clock.wf(),
    {
        BlockClock { timestamp: 0, block_time: 0 }
    }

    /// Takes in one entry of a block. An error leaves the clock as it was.
    fn take(&mut self, ex: &Option<Extrinsic>) -> (res: Result<bool, BlockError>)
        ensures
            match old(self).tick(*ex) {
                Ok(clock) => res == Ok::<bool, BlockError>(is_transfer(*ex)) && *final(self)
                    == clock,
                Err(e) => res == Err::<bool, BlockError>(e) && *final(self) == *old(self),
            },
            old(self).wf() ==> final(self).wf(),
    {
        match ex {
            Some(ex) => match ex.kind() {
                CallKind::Timestamp => match decode_compact(ex.fields.as_slice()) {
                    None => Err(BlockError::TimestampUndecodable),
                    Some(t) => if t < self.timestamp {
                        Err(BlockError::TimestampBackwards)
                    } else {
                        self.block_time = t - self.timestamp;
                        self.timestamp = t;
                        Ok(false)
                    },
                },
                CallKind::Transfer => Ok(true),
                CallKind::Other => Ok(false),
            },
            None => Ok(false),
        }
    }

    /// Takes in a block: moves the clock to the block's timestamp and returns how many of its
    /// transactions count. An error leaves the clock as it was.
    pub fn record(&mut self, extrinsics: &Vec<Option<Extrinsic>>) -> (res: Result<u64, BlockError>)
        ensures
            match old(self).after(extrinsics@) {
                Ok(clock) => (res matches Ok(n) && n == tx_count(extrinsics@)) && *final(self)
                    == clock,
                Err(e) => res == Err::<u64, BlockError>(e) && *final(self) == *old(self),
            },
            old(self).wf() ==> final(self).wf(),
    {
        let mut clock: BlockClock = *self;
        let mut count: u64 = 0;
        let mut i: usize = 0;
        let ghost pred = |ex: Option<Extrinsic>| is_transfer(ex);
        proof {
            reveal(Seq::filter);
            assert(extrinsics@.take(0).filter(pred).len() == 0);
        }
        while i < extrinsics.len()
            invariant
                i <= extrinsics.len(),
                self.wf() ==> clock.wf(),
                pred == (|ex: Option<Extrinsic>| is_transfer(ex)),
                self.after(extrinsics@.take(i as int)) == Ok::<BlockClock, BlockError>(clock),
                count == extrinsics@.take(i as int).filter(pred).len(),
                count <= i,
                *self == *old(self),
            decreases extrinsics.len() - i,
        {
            proof {
                let next = extrinsics@.take(i + 1);
                assert(next.drop_last() =~= extrinsics@.take(i as int));
                assert(next.last() == extrinsics@[i as int]);
                reveal(Seq::filter);
            }
            match clock.take(&extrinsics[i]) {
                Ok(counts) => {
                    if counts {
                        count = count + 1;
                    }
                },
                Err(e) => {
                    proof {
                        lemma_error_stays(*self, extrinsics@, i + 1);
                    }
                    return Err(e);
                },
            }
            i = i + 1;
        }
        assert(extrinsics@.take(i as int) =~= extrinsics@);
        *self = clock;
        Ok(count)
    }

    /// The throughput that a number of transactions in a block amounts to, in transactions per
    /// second. There is none before the chain's time has moved, nor for a count whose thousandfold
    /// is no `u64`.
    pub open spec fn throughput(self, count: u64) -> Option<u64> {
        if self.block_time == 0 || count * 1000 > u64::MAX {
            None
        } else {
            Some((count * 1000 / self.block_time as int) as u64)
        }
    }

    /// Returns the throughput that a number of transactions in a block amounts to.
    pub fn tps(&self, count: u64) -> (res: Option<u64>)
        ensures
            res == self.throughput(count),
            res.is_some() <==> self.block_time > 0 && 1000 * count <= u64::MAX,
            res matches Some(t) ==> t * self.block_time <= 1000 * count < (t + 1)
                * self.block_time,
    {
        proof {
            law_throughput_is_count_per_block_time(*self, count);
        }
        if self.block_time == 0 || count > u64::MAX / 1000 {
            None
        } else {
            Some(count * 1000 / self.block_time)
        }
    }
}

/// An error that comes while a block is taken in is the block's error.
proof fn lemma_error_stays(clock: BlockClock, extrinsics: Seq<Option<Extrinsic>>, k: int)
    requires
        0 <= k <= extrinsics.len(),
        clock.after(extrinsics.take(k)).is_err(),
    ensures
        clock.after(extrinsics) == clock.after(extrinsics.take(k)),
    decreases extrinsics.len(),
{
    if k == extrinsics.len() {
        assert(extrinsics.take(k) =~= extrinsics);
    } else {
        assert(extrinsics.drop_last().take(k) =~= extrinsics.take(k));
        lemma_error_stays(clock, extrinsics.drop_last(), k);
    }
}

/// Taking in two lists of entries one after the other is taking in both together.
pub proof fn law_record_concatenates(
    clock: BlockClock,
    a: Seq<Option<Extrinsic>>,
    b: Seq<Option<Extrinsic>>,
)
    ensures
        clock.after(a + b) == (match clock.after(a) {
            Ok(between) => between.after(b),
            Err(e) => Err(e),
        }),
        tx_count(a + b) == tx_count(a) + tx_count(b),
    decreases b.len(),
{
    let pred = |ex: Option<Extrinsic>| is_transfer(ex);
    Seq::filter_distributes_over_add(a, b, pred);
    if b.len() == 0 {
        assert(a + b =~= a);
    } else {
        law_record_concatenates(clock, a, b.drop_last());
        assert((a + b).drop_last() =~= a + b.drop_last());
    }
}

/// The chain's time never runs backwards, and its clock stays well formed.
pub proof fn law_clock_never_runs_back(clock: BlockClock, extrinsics: Seq<Option<Extrinsic>>)
    requires
        clock.wf(),
    ensures
        clock.after(extrinsics) matches Ok(later) ==> later.timestamp >= clock.timestamp
            && later.wf(),
    decreases extrinsics.len(),
{
    if extrinsics.len() > 0 {
        law_clock_never_runs_back(clock, extrinsics.drop_last());
    }
}

/// A block without a timestamp leaves the clock alone.
pub proof fn law_clock_waits_for_timestamp(clock: BlockClock, extrinsics: Seq<Option<Extrinsic>>)
    requires
        forall|i: int|
            0 <= i < extrinsics.len() ==> !(#[trigger] extrinsics[i] matches Some(ex) && call_kind(
                ex.pallet@,
                ex.variant@,
            ) == CallKind::Timestamp),
    ensures
        clock.after(extrinsics) == Ok::<BlockClock, BlockError>(clock),
    decreases extrinsics.len(),
{
    if extrinsics.len() > 0 {
        assert forall|i: int| 0 <= i < extrinsics.drop_last().len() implies !(
        #[trigger] extrinsics.drop_last()[i] matches Some(ex) && call_kind(ex.pallet@, ex.variant@)
            == CallKind::Timestamp) by {
            assert(extrinsics.drop_last()[i] == extrinsics[i]);
        }
        law_clock_waits_for_timestamp(clock, extrinsics.drop_last());
        assert(extrinsics.last() == extrinsics[extrinsics.len() - 1]);
    }
}

/// A block with one timestamp that is not earlier than the one before has the time between the
/// two as its block time.
pub proof fn law_block_time_is_timestamp_difference(
    clock: BlockClock,
    before: Seq<Option<Extrinsic>>,
    stamp: Extrinsic,
    t: u64,
    behind: Seq<Option<Extrinsic>>,
)
    requires
        call_kind(stamp.pallet@, stamp.variant@) == CallKind::Timestamp,
        compact_value(stamp.fields@) == Some(t),
        t >= clock.timestamp,
        forall|i: int|
            0 <= i < before.len() ==> !(#[trigger] before[i] matches Some(ex) && call_kind(
                ex.pallet@,
                ex.variant@,
            ) == CallKind::Timestamp),
        forall|i: int|
            0 <= i < behind.len() ==> !(#[trigger] behind[i] matches Some(ex) && call_kind(
                ex.pallet@,
                ex.variant@,
            ) == CallKind::Timestamp),
    ensures
        clock.after(before + seq![Some(stamp)] + behind) == Ok::<BlockClock, BlockError>(
            BlockClock { timestamp: t, block_time: (t - clock.timestamp) as u64 },
        ),
{
    let middle = before + seq![Some(stamp)];
    law_clock_waits_for_timestamp(clock, before);
    assert(middle.drop_last() =~= before);
    let later = BlockClock { timestamp: t, block_time: (t - clock.timestamp) as u64 };
    assert(clock.after(middle) == Ok::<BlockClock, BlockError>(later));
    law_record_concatenates(clock, middle, behind);
    law_clock_waits_for_timestamp(later, behind);
}

/// No block has more transactions that count than it has entries.
pub proof fn law_count_at_most_entries(extrinsics: Seq<Option<Extrinsic>>)
    ensures
        tx_count(extrinsics) <= extrinsics.len(),
{
    let pred = |ex: Option<Extrinsic>| is_transfer(ex);
    extrinsics.lemma_filter_len(pred);
}

/// The calls that matter are told by both of their names: `Timestamp.set`, and of the transfers
/// `Balances.transfer_keep_alive` and `Nfts.transfer`.
pub proof fn law_calls_are_told_by_both_names(pallet: Seq<char>, variant: Seq<char>)
    ensures
        call_kind(pallet, variant) == CallKind::Timestamp <==> (pallet, variant) == (
            "Timestamp"@,
            "set"@,
        ),
        call_kind(pallet, variant) == CallKind::Transfer <==> {
            ||| (pallet, variant) == ("Balances"@, "transfer_keep_alive"@)
            ||| (pallet, variant) == ("Nfts"@, "transfer"@)
        },
{
    reveal_strlit("Timestamp");
    reveal_strlit("Balances");
    reveal_strlit("Nfts");
    assert("Timestamp"@.len() == 9 && "Balances"@.len() == 8 && "Nfts"@.len() == 4);
}

/// The count of a block is the number of its entries that could be decoded and are transfers by
/// their names, in a block of any size.
pub proof fn law_count_is_number_of_transfers(extrinsics: Seq<Option<Extrinsic>>)
    ensures
        tx_count(extrinsics) == extrinsics.filter(
            |ex: Option<Extrinsic>|
                ex matches Some(x) && ((x.pallet@ == "Balances"@ && x.variant@
                    == "transfer_keep_alive"@) || (x.pallet@ == "Nfts"@ && x.variant@
                    == "transfer"@)),
        ).len(),
{
    let f = |ex: Option<Extrinsic>| is_transfer(ex);
    let g = |ex: Option<Extrinsic>|
        ex matches Some(x) && ((x.pallet@ == "Balances"@ && x.variant@ == "transfer_keep_alive"@)
            || (x.pallet@ == "Nfts"@ && x.variant@ == "transfer"@));
    assert forall|ex: Option<Extrinsic>| #[trigger] f(ex) == g(ex) by {
        if let Some(x) = ex {
            law_calls_are_told_by_both_names(x.pallet@, x.variant@);
        }
    }
    assert(f =~= g);
}

/// One more entry adds one to the count where it is a transfer, and nothing where it is not.
pub proof fn law_each_transfer_counts_once(extrinsics: Seq<Option<Extrinsic>>, ex: Extrinsic)
    ensures
        tx_count(Seq::<Option<Extrinsic>>::empty()) == 0,
        tx_count(extrinsics.push(None)) == tx_count(extrinsics),
        tx_count(extrinsics.push(Some(ex))) == tx_count(extrinsics) + if (ex.pallet@
            == "Balances"@ && ex.variant@ == "transfer_keep_alive"@) || (ex.pallet@ == "Nfts"@
            && ex.variant@ == "transfer"@) {
            1int
        } else {
            0
        },
{
    reveal(Seq::filter);
    law_calls_are_told_by_both_names(ex.pallet@, ex.variant@);
    assert(extrinsics.push(Some(ex)).drop_last() =~= extrinsics);
    assert(extrinsics.push(None).drop_last() =~= extrinsics);
}

/// Entries that could not be decoded, and entries that are not `Timestamp.set`, leave the clock
/// alone.
pub proof fn law_only_timestamps_move_the_clock(clock: BlockClock, ex: Extrinsic)
    requires
        ex.pallet@ != "Timestamp"@ || ex.variant@ != "set"@,
    ensures
        clock.after(seq![None]) == Ok::<BlockClock, BlockError>(clock),
        clock.after(seq![Some(ex)]) == Ok::<BlockClock, BlockError>(clock),
        clock.after(seq![]) == Ok::<BlockClock, BlockError>(clock),
{
    law_calls_are_told_by_both_names(ex.pallet@, ex.variant@);
    reveal_with_fuel(BlockClock::after, 2);
    assert(seq![Some(ex)].drop_last() =~= Seq::<Option<Extrinsic>>::empty());
    assert(seq![None::<Extrinsic>].drop_last() =~= Seq::<Option<Extrinsic>>::empty());
}

/// A `Timestamp.set` whose argument starts with the compact encoding of `t` sets the timestamp
/// to `t` and the block time to what has passed since the timestamp before; it is an error where
/// `t` is the earlier one.
pub proof fn law_timestamp_sets_the_clock(
    clock: BlockClock,
    stamp: Extrinsic,
    t: u64,
    rest: Seq<u8>,
)
    requires
        stamp.pallet@ == "Timestamp"@,
        stamp.variant@ == "set"@,
        stamp.fields@ == compact(t) + rest,
    ensures
        t >= clock.timestamp ==> (clock.after(seq![Some(stamp)]) matches Ok(later)
            && later.timestamp == t && clock.timestamp + later.block_time == t),
        t < clock.timestamp ==> clock.after(seq![Some(stamp)]) == Err::<BlockClock, BlockError>(
            BlockError::TimestampBackwards,
        ),
{
    law_calls_are_told_by_both_names(stamp.pallet@, stamp.variant@);
    law_compact_read_back(t, rest);
    reveal_with_fuel(BlockClock::after, 2);
    assert(seq![Some(stamp)].drop_last() =~= Seq::<Option<Extrinsic>>::empty());
}

/// A `Timestamp.set` whose argument starts with no compact encoding is an error.
pub proof fn law_undecodable_timestamp_is_an_error(clock: BlockClock, stamp: Extrinsic)
    requires
        stamp.pallet@ == "Timestamp"@,
        stamp.variant@ == "set"@,
        forall|t: u64| !#[trigger] compact(t).is_prefix_of(stamp.fields@),
    ensures
        clock.after(seq![Some(stamp)]) == Err::<BlockClock, BlockError>(
            BlockError::TimestampUndecodable,
        ),
{
    law_calls_are_told_by_both_names(stamp.pallet@, stamp.variant@);
    law_compact_value_is_what_was_encoded(stamp.fields@);
    reveal_with_fuel(BlockClock::after, 2);
    assert(seq![Some(stamp)].drop_last() =~= Seq::<Option<Extrinsic>>::empty());
}

/// The throughput is the number of transactions per second of the block's own time, rounded
/// down. There is one wherever the block time is not zero and the thousandfold of the count is a
/// `u64`, and nowhere else.
pub proof fn law_throughput_is_count_per_block_time(clock: BlockClock, count: u64)
    ensures
        clock.throughput(count).is_some() <==> clock.block_time > 0 && 1000 * count <= u64::MAX,
        clock.throughput(count) matches Some(t) ==> t * clock.block_time <= 1000 * count < (t + 1)
            * clock.block_time,
{
    if clock.block_time > 0 && 1000 * count <= u64::MAX {
        let x = count * 1000;
        let d = clock.block_time as int;
        let q = x / d;
        lemma_fundamental_div_mod(x, d);
        assert(0 <= q <= x && q * d <= x < (q + 1) * d) by (nonlinear_arith)
            requires
                x == d * q + x % d,
                0 <= x % d < d,
                x >= 0,
                d > 0,
        ;
    }
}

} // verus!
