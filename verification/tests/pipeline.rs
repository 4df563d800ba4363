//! Tests for the checkpoint walker and worker.

use ticket_ingest::codec::DecodeError;
use ticket_ingest::pipeline::{
    extract, Checkpoint, CheckpointWorker, Event, EventMatcher, Outcome, Transaction,
};
use ticket_ingest::record::TicketBought;

const TARGET: &str = "TicketBought";

fn payload(spin_id: u64, price: u64, amount: u64, coin: &str) -> Vec<u8> {
    let mut b = vec![0u8; 32];
    b.extend_from_slice(&spin_id.to_le_bytes());
    b.extend_from_slice(&price.to_le_bytes());
    b.extend_from_slice(&amount.to_le_bytes());
    b.push(coin.len() as u8);
    b.extend_from_slice(coin.as_bytes());
    b
}

fn event(event_type: &str, contents: Vec<u8>) -> Event {
    Event { event_type: event_type.to_string(), contents }
}

fn checkpoint(sequence_number: u64, transactions: Vec<Transaction>) -> Checkpoint {
    Checkpoint { sequence_number, transactions }
}

fn matcher() -> EventMatcher {
    EventMatcher::new(TARGET.to_string())
}

fn spin_ids(outcomes: &[Outcome]) -> Vec<u64> {
    outcomes
        .iter()
        .filter_map(|o| match o {
            Outcome::Decoded(t) => Some(t.spin_id),
            Outcome::Failed { .. } => None,
        })
        .collect()
}

#[test]
fn empty_checkpoint_yields_nothing() {
    let worker = CheckpointWorker::new(TARGET.to_string());
    let cp = checkpoint(58_542_633, Vec::new());
    let outcomes = worker.process_checkpoint(&cp).unwrap();
    assert!(outcomes.is_empty());
}

#[test]
fn traversal_follows_transaction_and_event_order() {
    let cp = checkpoint(
        1,
        vec![
            Transaction {
                events: vec![
                    event(TARGET, payload(1, 10, 1, "SUI")),
                    event("Other", payload(99, 99, 99, "SUI")),
                    event(TARGET, payload(2, 20, 1, "SUI")),
                ],
            },
            Transaction { events: Vec::new() },
            Transaction {
                events: vec![event(TARGET, payload(3, 30, 1, "SUI"))],
            },
        ],
    );
    let outcomes = extract(&cp, &matcher());
    assert_eq!(outcomes.len(), 3);
    assert_eq!(spin_ids(&outcomes), vec![1, 2, 3]);
}

#[test]
fn non_matching_events_yield_no_outcome() {
    // Even a payload that would fail to decode is left alone when the
    // type does not match.
    let cp = checkpoint(
        2,
        vec![Transaction {
            events: vec![
                event("TicketRefunded", vec![1, 2, 3]),
                event("ticketbought", payload(1, 1, 1, "SUI")),
                event("TicketBoughtX", payload(1, 1, 1, "SUI")),
            ],
        }],
    );
    let outcomes = extract(&cp, &matcher());
    assert!(outcomes.is_empty());
}

#[test]
fn one_malformed_event_leaves_the_rest_decoded() {
    let mut bad = payload(2, 20, 2, "SUI");
    bad.truncate(20);
    let cp = checkpoint(
        3,
        vec![
            Transaction {
                events: vec![
                    event(TARGET, payload(1, 10, 1, "SUI")),
                    event(TARGET, bad),
                ],
            },
            Transaction {
                events: vec![event(TARGET, payload(3, 30, 3, "SUI"))],
            },
        ],
    );
    let worker = CheckpointWorker::new(TARGET.to_string());
    let outcomes = worker.process_checkpoint(&cp).unwrap();
    assert_eq!(outcomes.len(), 3);
    assert_eq!(spin_ids(&outcomes), vec![1, 3]);
    assert!(matches!(
        &outcomes[1],
        Outcome::Failed { error: DecodeError::Truncated, .. }
    ));
}

#[test]
fn failure_note_carries_the_event_type() {
    let cp = checkpoint(
        4,
        vec![Transaction {
            events: vec![event(TARGET, vec![0u8; 10])],
        }],
    );
    let outcomes = extract(&cp, &matcher());
    assert_eq!(
        outcomes,
        vec![Outcome::Failed {
            event_type: TARGET.to_string(),
            error: DecodeError::Truncated,
        }]
    );
}

#[test]
fn decoded_outcome_carries_the_record() {
    let cp = checkpoint(
        5,
        vec![Transaction {
            events: vec![event(TARGET, payload(7, 100, 2, "SUI"))],
        }],
    );
    let outcomes = extract(&cp, &matcher());
    assert_eq!(
        outcomes,
        vec![Outcome::Decoded(TicketBought {
            receiver: vec![0u8; 32],
            spin_id: 7,
            price: 100,
            amount: 2,
            coin_type: "SUI".to_string(),
        })]
    );
}

#[test]
fn matcher_compares_exactly() {
    let m = matcher();
    assert!(m.matches(&"TicketBought".to_string()));
    assert!(!m.matches(&"TicketBough".to_string()));
    assert!(!m.matches(&"TicketBought ".to_string()));
    assert!(!m.matches(&"ticketBought".to_string()));
    assert!(!m.matches(&String::new()));
}

#[test]
fn worker_succeeds_despite_truncated_event() {
    let mut bad = payload(7, 100, 2, "SUI");
    bad.truncate(20);
    let cp = checkpoint(
        6,
        vec![Transaction { events: vec![event(TARGET, bad)] }],
    );
    let worker = CheckpointWorker::new(TARGET.to_string());
    let outcomes = worker.process_checkpoint(&cp).unwrap();
    assert_eq!(outcomes.len(), 1);
    assert!(matches!(
        &outcomes[0],
        Outcome::Failed { error: DecodeError::Truncated, .. }
    ));
}

#[test]
fn worker_reports_what_extract_reports() {
    let cp = checkpoint(
        7,
        vec![Transaction {
            events: vec![
                event(TARGET, payload(1, 2, 3, "SUI")),
                event("Other", vec![]),
            ],
        }],
    );
    let worker = CheckpointWorker::new(TARGET.to_string());
    assert_eq!(
        worker.process_checkpoint(&cp).unwrap(),
        extract(&cp, &matcher())
    );
}
