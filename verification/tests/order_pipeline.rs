// Tests drive the verified actor state machines directly, without the
// asynchronous mailbox layer. Amounts are fixed-point: hundredths of a unit,
// so 5.5 is written 550 and a cap of 20.0 is written 2000.

use order_actors::actors::{AdmissionOutcome, BuyOrder, Message, OrderBookActor};
use order_actors::order_tracker::{Order, TrackerActor, TrackerMessage};

fn buy_message(ticker: &str, amount: i64) -> Message {
    BuyOrder::new(ticker.to_string(), amount).to_message()
}

fn record(tracker: &mut TrackerActor, ticker: &str, amount: i64) {
    let reply = tracker.handle_message(TrackerMessage {
        command: Order::BUY(ticker.to_string(), amount),
    });
    assert!(reply.is_none());
}

fn snapshot(tracker: &mut TrackerActor) -> String {
    tracker
        .handle_message(TrackerMessage { command: Order::GET })
        .expect("a snapshot query must yield a reply")
}

#[test]
fn buy_order_fields() {
    let order = BuyOrder::new("BYND".to_string(), 550);
    assert_eq!(order.order, "BUY");
    assert_eq!(order.ticker, "BYND");
    assert_eq!(order.amount, 550);
    let message = order.to_message();
    assert_eq!(message.order, "BUY");
    assert_eq!(message.ticker, "BYND");
    assert_eq!(message.amount, 550);
}

#[test]
fn outcome_wire_codes() {
    assert_eq!(AdmissionOutcome::Accepted.code(), 1);
    assert_eq!(AdmissionOutcome::Rejected.code(), 0);
}

#[test]
fn scenario_sequential_cap() {
    // cap 20.0, five requests of 5.5 for one ticker: the third acceptance
    // reaches 16.5 < 20.0; the fourth would reach 22.0 >= 20.0.
    let mut actor = OrderBookActor::new(2000);
    let expected_outcomes = [
        AdmissionOutcome::Accepted,
        AdmissionOutcome::Accepted,
        AdmissionOutcome::Accepted,
        AdmissionOutcome::Rejected,
        AdmissionOutcome::Rejected,
    ];
    let expected_totals: [i64; 5] = [550, 1100, 1650, 1650, 1650];
    for k in 0..5_usize {
        let (outcome, forwarded) = actor.handle_message(buy_message("X", 550));
        assert_eq!(outcome, expected_outcomes[k]);
        assert_eq!(actor.total_invested, expected_totals[k]);
        match outcome {
            AdmissionOutcome::Accepted => match forwarded {
                Some(Order::BUY(ticker, amount)) => {
                    assert_eq!(ticker, "X");
                    assert_eq!(amount, 550);
                }
                _ => panic!("an acceptance must forward the purchase record"),
            },
            AdmissionOutcome::Rejected => assert!(forwarded.is_none()),
        }
    }
    assert_eq!(actor.investment_cap, 2000);
}

#[test]
fn scenario_two_producers_interleaved() {
    // cap 20.0, five requests of 5.5 for "X" and five for "Y", alternating.
    // The accepted total stays under the cap, and the holdings add up to
    // exactly the sum of the accepted amounts.
    let mut actor = OrderBookActor::new(2000);
    let mut tracker = TrackerActor::new();
    let mut accepted_sum: i64 = 0;
    for k in 0..10_usize {
        let ticker = if k % 2 == 0 { "X" } else { "Y" };
        let (outcome, forwarded) = actor.handle_message(buy_message(ticker, 550));
        if let Some(Order::BUY(t, a)) = forwarded {
            assert_eq!(outcome, AdmissionOutcome::Accepted);
            accepted_sum += a;
            record(&mut tracker, &t, a);
        } else {
            assert_eq!(outcome, AdmissionOutcome::Rejected);
        }
        assert!(actor.total_invested < 2000);
    }
    assert_eq!(actor.total_invested, accepted_sum);
    let x: i64 = tracker.amount_for(&"X".to_string());
    let y: i64 = tracker.amount_for(&"Y".to_string());
    assert_eq!(x + y, accepted_sum);
    // 3 acceptances of 550: two for "X" (positions 0 and 2), one for "Y".
    assert_eq!(accepted_sum, 1650);
    assert_eq!(x, 1100);
    assert_eq!(y, 550);
    assert_eq!(snapshot(&mut tracker), "X: 1100;Y: 550;\n");
}

#[test]
fn exact_cap_boundary_is_rejected() {
    // The comparison is `>=`: a request that would bring the total to
    // exactly the cap is rejected.
    let mut actor = OrderBookActor::new(100);
    let (outcome, _) = actor.handle_message(buy_message("X", 100));
    assert_eq!(outcome, AdmissionOutcome::Rejected);
    assert_eq!(actor.total_invested, 0);
    let (outcome, _) = actor.handle_message(buy_message("X", 99));
    assert_eq!(outcome, AdmissionOutcome::Accepted);
    assert_eq!(actor.total_invested, 99);
    let (outcome, _) = actor.handle_message(buy_message("X", 1));
    assert_eq!(outcome, AdmissionOutcome::Rejected);
    assert_eq!(actor.total_invested, 99);
}

#[test]
fn empty_snapshot_is_just_the_marker() {
    let mut tracker = TrackerActor::new();
    assert_eq!(snapshot(&mut tracker), "\n");
}

#[test]
fn snapshot_is_idempotent() {
    let mut tracker = TrackerActor::new();
    record(&mut tracker, "BYND", 550);
    record(&mut tracker, "PLTR", 275);
    let first = snapshot(&mut tracker);
    let second = snapshot(&mut tracker);
    assert_eq!(first, second);
    assert_eq!(first, "BYND: 550;PLTR: 275;\n");
}

#[test]
fn amounts_accumulate_per_ticker() {
    let mut tracker = TrackerActor::new();
    record(&mut tracker, "X", 5);
    record(&mut tracker, "X", 7);
    record(&mut tracker, "Y", 11);
    record(&mut tracker, "X", 13);
    assert_eq!(tracker.amount_for(&"X".to_string()), 25);
    assert_eq!(tracker.amount_for(&"Y".to_string()), 11);
    assert_eq!(tracker.amount_for(&"Z".to_string()), 0);
    assert_eq!(snapshot(&mut tracker), "X: 25;Y: 11;\n");
}

#[test]
fn aggregation_is_order_independent() {
    let mut forward = TrackerActor::new();
    record(&mut forward, "A", 1);
    record(&mut forward, "B", 20);
    record(&mut forward, "A", 300);
    let mut backward = TrackerActor::new();
    record(&mut backward, "A", 300);
    record(&mut backward, "B", 20);
    record(&mut backward, "A", 1);
    assert_eq!(forward.amount_for(&"A".to_string()), 301);
    assert_eq!(
        forward.amount_for(&"A".to_string()),
        backward.amount_for(&"A".to_string())
    );
    assert_eq!(
        forward.amount_for(&"B".to_string()),
        backward.amount_for(&"B".to_string())
    );
}

#[test]
fn snapshot_formats_signed_amounts() {
    let mut tracker = TrackerActor::new();
    record(&mut tracker, "ZERO", 0);
    record(&mut tracker, "NEG", -35);
    record(&mut tracker, "BIG", 1234567890123);
    record(&mut tracker, "MIN", i64::MIN);
    record(&mut tracker, "MAX", i64::MAX);
    assert_eq!(
        snapshot(&mut tracker),
        "ZERO: 0;NEG: -35;BIG: 1234567890123;MIN: -9223372036854775808;MAX: 9223372036854775807;\n"
    );
}

#[test]
fn negative_amount_bypasses_the_cap_check() {
    // Nothing in the admission rule rejects a non-positive amount: a
    // negative amount is accepted whenever the candidate stays below the
    // cap, and it decreases the running total.
    let mut actor = OrderBookActor::new(100);
    let (outcome, _) = actor.handle_message(buy_message("X", 50));
    assert_eq!(outcome, AdmissionOutcome::Accepted);
    let (outcome, _) = actor.handle_message(buy_message("X", -30));
    assert_eq!(outcome, AdmissionOutcome::Accepted);
    assert_eq!(actor.total_invested, 20);
}
