//! Latencies, counted by value in three significant digits.

use hdrhistogram::{CreationError, Histogram, RecordError};
use vstd::multiset::Multiset;
use vstd::prelude::*;

verus! {

/// How many significant digits of a latency are kept.
pub const SIGNIFICANT_DIGITS: u8 = 3;

/// `hdrhistogram::CreationError` says why a histogram could not be made.
#[verifier::external_type_specification]
#[verifier::external_body]
pub struct ExCreationError(CreationError);

/// `hdrhistogram::RecordError` says why a value could not be recorded.
#[verifier::external_type_specification]
#[verifier::external_body]
pub struct ExRecordError(RecordError);

/// A histogram of latencies, kept by `hdrhistogram::Histogram<u64>`.
#[verifier::external_body]
pub struct LatencyHistogram {
    inner: Histogram<u64>,
}

/// The levels of the values that a histogram holds, each as often as it was recorded.
pub uninterp spec fn held(histogram: LatencyHistogram) -> Multiset<nat>;

/// The level that a value counts under: all of a value below 2048, else its eleven leading binary
/// digits, with zeros behind them.
pub open spec fn level(value: nat) -> nat
    decreases value,
{
    if value < 2048 {
        value
    } else {
        2 * level(value / 2)
    }
}

/// `hdrhistogram::Histogram::new`, asked for three digits, makes an empty histogram that grows as
/// it needs to.
#[verifier::external_body]
fn create(digits: u8) -> (made: Result<LatencyHistogram, CreationError>)
    requires
        digits == 3,
    ensures
        made is Ok,
        held(made->Ok_0) == Multiset::<nat>::empty(),
{
    Histogram::new(digits).map(|inner| LatencyHistogram { inner })
}

/// `hdrhistogram::Histogram::record` counts a value under its level. A histogram that grows takes
/// any value.
#[verifier::external_body]
fn record_value(histogram: &mut LatencyHistogram, value: u64) -> (outcome: Result<(), RecordError>)
    requires
        held(*old(histogram)).len() < u64::MAX,
    ensures
        outcome is Ok,
        held(*final(histogram)) == held(*old(histogram)).insert(level(value as nat)),
{
    histogram.inner.record(value)
}

/// `hdrhistogram::Histogram::iter_recorded` goes through the levels that were recorded, from the
/// lowest to the highest: it gives a value of each, and how often it was recorded.
#[verifier::external_body]
fn list_recorded(histogram: &LatencyHistogram) -> (list: Vec<(u64, u64)>)
    ensures
        lists(list@, held(*histogram)),
{
    let recorded = histogram.inner.iter_recorded();
    recorded.map(|it| (it.value_iterated_to(), it.count_at_value())).collect()
}

/// Whether `list` names every level in `levels` once, in rising order, each by one of its values,
/// with the number of its occurrences.
pub open spec fn lists(list: Seq<(u64, u64)>, levels: Multiset<nat>) -> bool {
    &&& forall|i: int|
        0 <= i < list.len() ==> (#[trigger] list[i]).1 > 0 && levels.count(level(list[i].0 as nat))
            == list[i].1
    &&& forall|i: int, j: int|
        0 <= i < j < list.len() ==> level((#[trigger] list[i]).0 as nat) < level(
            (#[trigger] list[j]).0 as nat,
        )
    &&& forall|l: nat|
        levels.count(l) > 0 ==> exists|i: int|
            0 <= i < list.len() && level((#[trigger] list[i]).0 as nat) == l
}

/// `levels` with `value` recorded `n` times more.
pub open spec fn recorded(levels: Multiset<nat>, value: u64, n: nat) -> Multiset<nat>
    decreases n,
{
    if n == 0 {
        levels
    } else {
        recorded(levels, value, (n - 1) as nat).insert(level(value as nat))
    }
}

impl LatencyHistogram {
    /// An empty histogram.
    pub fn new() -> (histogram: Self)
        ensures
            held(histogram) == Multiset::<nat>::empty(),
    {
        create(SIGNIFICANT_DIGITS).unwrap()
    }

    /// Records a value.
    pub fn record(&mut self, value: u64)
        requires
            held(*old(self)).len() < u64::MAX,
        ensures
            held(*final(self)) == held(*old(self)).insert(level(value as nat)),
    {
        record_value(self, value).unwrap();
    }

    /// Lists what was recorded: a value of each level, and how often it came.
    pub fn recorded(&self) -> (list: Vec<(u64, u64)>)
        ensures
            lists(list@, held(*self)),
    {
        list_recorded(self)
    }
}

/// How many values count under the level of `value`.
pub open spec fn width(value: nat) -> nat
    decreases value,
{
    if value < 2048 {
        1
    } else {
        2 * width(value / 2)
    }
}

proof fn lemma_width(value: nat)
    ensures
        level(value) <= value < level(value) + width(value),
        value >= 1024 ==> level(value) >= 1024 * width(value),
        level(level(value)) == level(value),
    decreases value,
{
    if value >= 2048 {
        lemma_width(value / 2);
    }
}

/// A level is one of the values that count under it, and no more than a thousandth below any of
/// them: three significant digits are kept.
pub proof fn law_three_digits_are_kept(value: nat)
    ensures
        level(value) <= value,
        1000 * (value - level(value)) <= value,
        level(level(value)) == level(value),
{
    lemma_width(value);
}

/// To record a value `n` times more adds `n` to the count of its level, and changes no other.
pub proof fn law_recording_adds_up(levels: Multiset<nat>, value: u64, n: nat, other: nat)
    ensures
        recorded(levels, value, n).count(other) == levels.count(other) + (if other == level(
            value as nat,
        ) {
            n
        } else {
            0
        }),
    decreases n,
{
    broadcast use vstd::multiset::group_multiset_axioms;

    if n > 0 {
        law_recording_adds_up(levels, value, (n - 1) as nat, other);
    }
}

/// A list of levels tells how often each came: a level that came has one place in it, with a value
/// of that level and the number of times; a level that did not come has none.
pub proof fn law_list_tells_every_level(list: Seq<(u64, u64)>, levels: Multiset<nat>, l: nat)
    requires
        lists(list, levels),
    ensures
        levels.count(l) > 0 <==> exists|i: int|
            0 <= i < list.len() && level((#[trigger] list[i]).0 as nat) == l,
        forall|i: int|
            0 <= i < list.len() && level((#[trigger] list[i]).0 as nat) == l ==> list[i].1
                == levels.count(l),
        forall|i: int, j: int|
            0 <= i < j < list.len() ==> (#[trigger] list[i]).0 < (#[trigger] list[j]).0,
{
    assert forall|i: int, j: int| 0 <= i < j < list.len() implies (#[trigger] list[i]).0 < (
    #[trigger] list[j]).0 by {
        lemma_level_rises(list[j].0 as nat, list[i].0 as nat);
    }
}

/// A lower value has no higher level.
proof fn lemma_level_rises(low: nat, high: nat)
    ensures
        low <= high ==> level(low) <= level(high),
    decreases high,
{
    if high >= 2048 && low <= high {
        if low >= 2048 {
            lemma_level_rises(low / 2, high / 2);
        } else {
            lemma_width(high);
            lemma_level_rises(2047, high / 2);
            if high / 2 < 2048 {
                assert(level(high / 2) == high / 2);
            } else {
                assert(level(high / 2) >= 2047);
            }
        }
    }
}

} // verus!
