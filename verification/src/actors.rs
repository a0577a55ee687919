//! Order-admission actor state: a running total of accepted investment and a
//! fixed cap, with the per-message admission decision.

use vstd::prelude::*;
use crate::order_tracker::Order;

verus! {

/// Outcome of one buy request: accepted into the book, or rejected by the
/// cap. On the wire it is encoded as `1` (accepted) / `0` (rejected).
#[derive(Debug, Clone, Copy, PartialEq, Eq, Structural)]
pub enum AdmissionOutcome {
    Accepted,
    Rejected,
}

impl AdmissionOutcome {
    /// Wire encoding of the outcome.
    pub open spec fn spec_code(self) -> u32 {
        match self {
            AdmissionOutcome::Accepted => 1,
            AdmissionOutcome::Rejected => 0,
        }
    }

    /// The small-integer encoding sent over a reply channel.
    pub fn code(&self) -> (c: u32)
        ensures
            c == self.spec_code(),
    {
        match self {
            AdmissionOutcome::Accepted => 1,
            AdmissionOutcome::Rejected => 0,
        }
    }
}

/// A buy request as the admission actor sees it. The reply slot that carries
/// the outcome back to the producer is part of the channel layer.
pub struct Message {
    pub order: String,
    pub ticker: String,
    pub amount: i64,
}

/// Producer-side description of one buy order; `to_message` turns it into the
/// mailbox message.
pub struct BuyOrder {
    pub order: String,
    pub ticker: String,
    pub amount: i64,
}

impl BuyOrder {
    /// A buy order for `amount` of `ticker`.
    pub fn new(ticker: String, amount: i64) -> (r: Self)
        ensures
            r.order@ == "BUY"@,
            r.ticker@ == ticker@,
            r.amount == amount,
    {
        BuyOrder { order: "BUY".to_owned(), ticker, amount }
    }

    /// The mailbox message this order submits.
    pub fn to_message(self) -> (m: Message)
        ensures
            m.order@ == self.order@,
            m.ticker@ == self.ticker@,
            m.amount == self.amount,
    {
        Message { order: self.order, ticker: self.ticker, amount: self.amount }
    }
}

/// One admission decision: given the running total, the cap and a requested
/// amount, returns whether the request is accepted and the new running total.
/// A request whose candidate total would reach or pass the cap is rejected
/// and leaves the total unchanged; the cap is an exclusive upper bound.
pub open spec fn admit_step(total: int, cap: int, amount: int) -> (bool, int) {
    if total + amount < cap {
        (true, total + amount)
    } else {
        (false, total)
    }
}

/// Running total after processing the whole sequence of requested amounts,
/// starting from nothing invested, one `admit_step` per request in order.
pub open spec fn total_after(cap: int, amounts: Seq<int>) -> int
    decreases amounts.len(),
{
    if amounts.len() == 0 {
        0
    } else {
        admit_step(total_after(cap, amounts.drop_last()), cap, amounts.last()).1
    }
}

/// Whether the request at position `i` of the sequence is accepted.
pub open spec fn accepted_at(cap: int, amounts: Seq<int>, i: int) -> bool {
    admit_step(total_after(cap, amounts.take(i)), cap, amounts[i]).0
}

/// Cap enforcement: over any sequence of requested amounts, the running
/// total right after an accepted request is strictly below the cap, and a
/// rejected request leaves the running total unchanged.
pub proof fn lemma_cap_enforcement(cap: int, amounts: Seq<int>, i: int)
    requires
        0 <= i < amounts.len(),
    ensures
        accepted_at(cap, amounts, i) ==> total_after(cap, amounts.take(i + 1)) < cap,
        !accepted_at(cap, amounts, i) ==> total_after(cap, amounts.take(i + 1)) == total_after(
            cap,
            amounts.take(i),
        ),
{
    assert(amounts.take(i + 1).drop_last() =~= amounts.take(i));
    assert(amounts.take(i + 1).last() == amounts[i]);
}

/// Monotonicity: the running total never decreases on a non-negative
/// requested amount, changes only when a request is accepted, and then
/// grows by exactly that amount. (An accepted negative amount would
/// decrease it; nothing in the admission rule rejects one.)
pub proof fn lemma_monotonicity(cap: int, amounts: Seq<int>, i: int)
    requires
        0 <= i < amounts.len(),
    ensures
        amounts[i] >= 0 ==> total_after(cap, amounts.take(i + 1)) >= total_after(
            cap,
            amounts.take(i),
        ),
        !accepted_at(cap, amounts, i) ==> total_after(cap, amounts.take(i + 1)) == total_after(
            cap,
            amounts.take(i),
        ),
        accepted_at(cap, amounts, i) ==> total_after(cap, amounts.take(i + 1)) == total_after(
            cap,
            amounts.take(i),
        ) + amounts[i],
{
    assert(amounts.take(i + 1).drop_last() =~= amounts.take(i));
    assert(amounts.take(i + 1).last() == amounts[i]);
}

/// The order-admission actor's owned state: the running total of accepted
/// amounts and the immutable cap it enforces.
pub struct OrderBookActor {
    pub total_invested: i64,
    pub investment_cap: i64,
}

impl OrderBookActor {
    /// A fresh actor with nothing invested and the given cap.
    pub fn new(investment_cap: i64) -> (r: Self)
        ensures
            r.total_invested == 0,
            r.investment_cap == investment_cap,
    {
        OrderBookActor { total_invested: 0, investment_cap }
    }

    /// Processes one buy request: decides admission per `admit_step`, updates
    /// the running total on acceptance, and hands back the outcome to reply
    /// with together with the purchase record to forward to the tracker
    /// (`None` on rejection).
    pub fn handle_message(&mut self, message: Message) -> (r: (AdmissionOutcome, Option<Order>))
        requires
            i64::MIN <= old(self).total_invested + message.amount <= i64::MAX,
        ensures
            final(self).investment_cap == old(self).investment_cap,
            final(self).total_invested as int == admit_step(
                old(self).total_invested as int,
                old(self).investment_cap as int,
                message.amount as int,
            ).1,
            admit_step(
                old(self).total_invested as int,
                old(self).investment_cap as int,
                message.amount as int,
            ).0 ==> r.0 == AdmissionOutcome::Accepted && (r.1 matches Some(cmd)
                && (cmd matches Order::BUY(t, a) && t@ == message.ticker@ && a == message.amount)),
            !admit_step(
                old(self).total_invested as int,
                old(self).investment_cap as int,
                message.amount as int,
            ).0 ==> r.0 == AdmissionOutcome::Rejected && r.1 is None,
    {
        if message.amount + self.total_invested >= self.investment_cap {
            (AdmissionOutcome::Rejected, None)
        } else {
            self.total_invested = self.total_invested + message.amount;
            (AdmissionOutcome::Accepted, Some(Order::BUY(message.ticker, message.amount)))
        }
    }
}

} // verus!

