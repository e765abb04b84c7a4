//! A ledger of prices by time, and the mean price over a period.

use vstd::prelude::*;
use std::collections::BTreeMap;
use crate::means::keys::{rising, sorted_keys};

verus! {

/// A price, in pennies.
pub type Price = i32;

/// A point in time.
pub type Inst = i32;

/// The prices on record, each at its time. A time has at most one price.
pub struct Ledger {
    entries: BTreeMap<Inst, Price>,
}

impl View for Ledger {
    type V = Map<Inst, Price>;

    closed spec fn view(&self) -> Map<Inst, Price> {
        self.entries@
    }
}

/// The price at `at`, as far as there is one: zero otherwise.
pub open spec fn price_at(prices: Map<Inst, Price>, at: int) -> int {
    if i32::MIN <= at <= i32::MAX && prices.contains_key(at as i32) {
        prices[at as i32] as int
    } else {
        0
    }
}

/// One if there is a price at `at`, zero otherwise.
pub open spec fn one_at(prices: Map<Inst, Price>, at: int) -> int {
    if i32::MIN <= at <= i32::MAX && prices.contains_key(at as i32) {
        1
    } else {
        0
    }
}

/// The sum of the prices from `min` to `max`, both included.
pub open spec fn total(prices: Map<Inst, Price>, min: int, max: int) -> int
    decreases max - min + 1,
{
    if max < min {
        0
    } else {
        total(prices, min, max - 1) + price_at(prices, max)
    }
}

/// The number of prices from `min` to `max`, both included.
pub open spec fn count(prices: Map<Inst, Price>, min: int, max: int) -> int
    decreases max - min + 1,
{
    if max < min {
        0
    } else {
        count(prices, min, max - 1) + one_at(prices, max)
    }
}

/// The quotient of `sum` by `n`, rounded to the nearest integer, with
/// halves rounded away from zero.
pub open spec fn rounded(sum: int, n: int) -> int
    recommends
        n > 0,
{
    if sum >= 0 {
        (2 * sum + n) / (2 * n)
    } else {
        -((n - 2 * sum) / (2 * n))
    }
}

/// The mean of the prices from `min` to `max`, rounded: there is none
/// where the period is empty or holds no price.
pub open spec fn mean_of(prices: Map<Inst, Price>, min: Inst, max: Inst) -> Option<Price> {
    if min > max || count(prices, min as int, max as int) == 0 {
        None
    } else {
        Some(
            rounded(
                total(prices, min as int, max as int),
                count(prices, min as int, max as int),
            ) as i32,
        )
    }
}

/// A period without prices adds nothing to a sum or a count.
pub proof fn lemma_gap(prices: Map<Inst, Price>, min: int, from: int, to: int)
    requires
        min - 1 <= from <= to,
        forall|k: Inst| from < k <= to ==> !prices.contains_key(k),
    ensures
        total(prices, min, to) == total(prices, min, from),
        count(prices, min, to) == count(prices, min, from),
    decreases to - from,
{
    if from < to {
        lemma_gap(prices, min, from, to - 1);
    }
}

/// A sum of prices lies within what so many prices can come to.
pub proof fn lemma_bounds(prices: Map<Inst, Price>, min: int, max: int)
    requires
        min - 1 <= max,
    ensures
        0 <= count(prices, min, max) <= max - min + 1,
        count(prices, min, max) * (i32::MIN as int) <= total(prices, min, max),
        total(prices, min, max) <= count(prices, min, max) * (i32::MAX as int),
    decreases max - min + 1,
{
    if max >= min {
        lemma_bounds(prices, min, max - 1);
    }
}

/// The rounded mean of numbers of 32 bits is a number of 32 bits.
pub proof fn lemma_rounded_fits(sum: int, n: int)
    requires
        n > 0,
        n * (i32::MIN as int) <= sum <= n * (i32::MAX as int),
    ensures
        i32::MIN <= rounded(sum, n) <= i32::MAX,
{
    if sum >= 0 {
        let top = 2 * sum + n;
        assert(top / (2 * n) <= i32::MAX) by (nonlinear_arith)
            requires
                n > 0,
                0 <= top <= 2 * n * 0x7fff_ffff + n,
        ;
        assert(top / (2 * n) >= 0) by (nonlinear_arith)
            requires
                n > 0,
                0 <= top,
        ;
    } else {
        let top = n - 2 * sum;
        assert(top / (2 * n) <= 0x8000_0000) by (nonlinear_arith)
            requires
                n > 0,
                0 <= top <= 2 * n * 0x8000_0000 + n,
        ;
        assert(top / (2 * n) >= 0) by (nonlinear_arith)
            requires
                n > 0,
                0 <= top,
        ;
    }
}

impl Ledger {
    /// A ledger without prices.
    pub fn new() -> (ledger: Ledger)
        ensures
            ledger@ == Map::<Inst, Price>::empty(),
    {
        Ledger { entries: BTreeMap::new() }
    }

    /// Records `price` at `inst`, unless there is a price at that time
    /// already. Says whether the price was recorded.
    pub fn insert(&mut self, inst: Inst, price: Price) -> (recorded: bool)
        ensures
            recorded == !old(self)@.contains_key(inst),
            final(self)@ == if recorded {
                old(self)@.insert(inst, price)
            } else {
                old(self)@
            },
    {
        if self.entries.contains_key(&inst) {
            return false;
        }
        self.entries.insert(inst, price);
        true
    }

    /// The mean of the prices from `min` to `max`, both included: see
    /// [`mean_of`].
    pub fn mean(&self, min: Inst, max: Inst) -> (mean: Option<Price>)
        ensures
            mean == mean_of(self@, min, max),
    {
        if min > max {
            return None;
        }
        let order = sorted_keys(&self.entries);
        let ghost prices = self@;
        let mut n: i64 = 0;
        let mut sum: i64 = 0;
        let mut i: usize = 0;
        let ghost mut upto: int = min - 1;
        let ghost mut last: int = -1;
        while i < order.len()
            invariant
                i <= order.len(),
                min <= max,
                prices == self.entries@,
                rising(order@),
                order@.to_set() == prices.dom(),
                min - 1 <= upto <= max,
                (last == -1 && upto == min - 1) || (0 <= last < i && order[last] == upto),
                forall|k: Inst| upto < k <= max && prices.contains_key(k) ==> exists|j: int|
                    i <= j < order.len() && order[j] == k,
                n == count(prices, min as int, upto),
                sum == total(prices, min as int, upto),
            decreases order.len() - i,
        {
            let key = order[i];
            if key >= min && key <= max {
                proof {
                    assert(order@.to_set().contains(key));
                    assert forall|k: Inst| upto < k <= key - 1 implies !prices.contains_key(k) by {
                        if prices.contains_key(k) {
                            let j = choose|j: int| i <= j < order.len() && order[j] == k;
                            if j > i {
                                assert(order[i as int] < order[j]);
                            }
                        }
                    }
                    if upto < key - 1 {
                        lemma_gap(prices, min as int, upto, key - 1);
                    }
                    if last >= 0 {
                        assert(order[last] < order[i as int]);
                    }
                    lemma_bounds(prices, min as int, key as int);
                    assert(prices.contains_key(key));
                    assert(count(prices, min as int, key as int) == count(
                        prices,
                        min as int,
                        key - 1,
                    ) + 1);
                    assert(total(prices, min as int, key as int) == total(
                        prices,
                        min as int,
                        key - 1,
                    ) + prices[key]);
                }
                let price = match self.entries.get(&key) {
                    Some(price) => *price,
                    None => 0,
                };
                n += 1;
                sum += price as i64;
                proof {
                    upto = key as int;
                    last = i as int;
                    assert forall|k: Inst| upto < k <= max && prices.contains_key(k) implies exists|
                        j: int,
                    | i + 1 <= j < order.len() && order[j] == k by {
                        let j = choose|j: int| i <= j < order.len() && order[j] == k;
                        assert(j != i);
                    }
                }
            } else {
                proof {
                    assert forall|k: Inst| upto < k <= max && prices.contains_key(k) implies exists|
                        j: int,
                    | i + 1 <= j < order.len() && order[j] == k by {
                        let j = choose|j: int| i <= j < order.len() && order[j] == k;
                        assert(j != i);
                    }
                }
            }
            i += 1;
        }
        proof {
            assert forall|k: Inst| upto < k <= max implies !prices.contains_key(k) by {}
            lemma_gap(prices, min as int, upto, max as int);
            lemma_bounds(prices, min as int, max as int);
        }
        if n == 0 {
            return None;
        }
        proof {
            lemma_rounded_fits(sum as int, n as int);
        }
        let wide: i128 = sum as i128;
        let many: i128 = n as i128;
        let mean: i128 = if wide >= 0 {
            (2 * wide + many) / (2 * many)
        } else {
            -((many - 2 * wide) / (2 * many))
        };
        Some(mean as i32)
    }
}

/// The kind of a message that records a price.
pub const INSERT: u8 = 0x49;

/// The kind of a message that asks for a mean.
pub const QUERY: u8 = 0x51;

/// What is to be done after a message.
#[derive(Clone, Copy, Debug, PartialEq, Eq)]
pub enum Reply {
    /// Nothing: wait for the next message.
    Nothing,
    /// Send this mean, then wait for the next message.
    Mean(Price),
    /// Close the connection.
    Close,
}

/// The prices after a message of kind `kind` with the numbers `first`
/// and `second`: a message that records a price at a time without one
/// adds it, and no other message changes anything.
pub open spec fn recorded(prices: Map<Inst, Price>, kind: u8, first: i32, second: i32) -> Map<
    Inst,
    Price,
> {
    if kind == INSERT && !prices.contains_key(first) {
        prices.insert(first, second)
    } else {
        prices
    }
}

/// What is to be done after a message of kind `kind` with the numbers
/// `first` and `second`. A price that is recorded needs no answer. A
/// query is answered with the mean of the period from `first` to
/// `second`, or zero where there is none. A second price for a time, and
/// a message of any other kind, end the connection.
pub open spec fn reply_to(prices: Map<Inst, Price>, kind: u8, first: i32, second: i32) -> Reply {
    if kind == INSERT {
        if prices.contains_key(first) {
            Reply::Close
        } else {
            Reply::Nothing
        }
    } else if kind == QUERY {
        match mean_of(prices, first, second) {
            Some(mean) => Reply::Mean(mean),
            None => Reply::Mean(0),
        }
    } else {
        Reply::Close
    }
}

/// Carries out a message on a ledger and says what is to be done after
/// it: see [`recorded`] and [`reply_to`].
pub fn handle(ledger: &mut Ledger, kind: u8, first: i32, second: i32) -> (reply: Reply)
    ensures
        final(ledger)@ == recorded(old(ledger)@, kind, first, second),
        reply == reply_to(old(ledger)@, kind, first, second),
{
    if kind == INSERT {
        if ledger.insert(first, second) {
            Reply::Nothing
        } else {
            Reply::Close
        }
    } else if kind == QUERY {
        match ledger.mean(first, second) {
            Some(mean) => Reply::Mean(mean),
            None => Reply::Mean(0),
        }
    } else {
        Reply::Close
    }
}

} // verus!
