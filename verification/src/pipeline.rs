//! The checkpoint data model, the event matcher, the walker and the worker.

use vstd::prelude::*;

use crate::codec::{decode, spec_decode, DecodeError};
use crate::record::{TicketBought, TicketView};

verus! {

/// A structured notification emitted by a transaction: a declared type
/// identifier and an opaque payload whose meaning depends on that
/// identifier alone.
pub struct Event {
    pub event_type: String,
    pub contents: Vec<u8>,
}

/// The mathematical value of an [`Event`].
pub ghost struct EventView {
    pub event_type: Seq<char>,
    pub contents: Seq<u8>,
}

impl View for Event {
    type V = EventView;

    open spec fn view(&self) -> EventView {
        EventView { event_type: self.event_type@, contents: self.contents@ }
    }
}

impl DeepView for Event {
    type V = EventView;

    open spec fn deep_view(&self) -> EventView {
        self@
    }
}

/// One transaction of a checkpoint: an ordered list of emitted events,
/// possibly empty.
pub struct Transaction {
    pub events: Vec<Event>,
}

/// The mathematical value of a [`Transaction`].
pub ghost struct TransactionView {
    pub events: Seq<EventView>,
}

impl View for Transaction {
    type V = TransactionView;

    open spec fn view(&self) -> TransactionView {
        TransactionView { events: self.events.deep_view() }
    }
}

impl DeepView for Transaction {
    type V = TransactionView;

    open spec fn deep_view(&self) -> TransactionView {
        self@
    }
}

/// An ordered batch of transactions representing one contiguous slice of
/// chain history, identified by a monotonically increasing sequence number.
pub struct Checkpoint {
    pub sequence_number: u64,
    pub transactions: Vec<Transaction>,
}

/// The mathematical value of a [`Checkpoint`].
pub ghost struct CheckpointView {
    pub sequence_number: u64,
    pub transactions: Seq<TransactionView>,
}

impl View for Checkpoint {
    type V = CheckpointView;

    open spec fn view(&self) -> CheckpointView {
        CheckpointView {
            sequence_number: self.sequence_number,
            transactions: self.transactions.deep_view(),
        }
    }
}

/// Decides whether an event's declared type identifier is the one being
/// tracked: an exact string comparison against one configured target.
pub struct EventMatcher {
    pub target: String,
}

impl View for EventMatcher {
    type V = Seq<char>;

    open spec fn view(&self) -> Seq<char> {
        self.target@
    }
}

impl EventMatcher {
    /// A matcher for the given type identifier.
    pub fn new(target: String) -> (m: EventMatcher)
        ensures
            m@ == target@,
    {
        EventMatcher { target }
    }

    /// True exactly when `event_type` equals the configured identifier.
    pub fn matches(&self, event_type: &String) -> (r: bool)
        ensures
            r == (event_type@ == self@),
    {
        self.target == *event_type
    }
}

/// What the walker reports for one matching event: the decoded record, or
/// a per-event failure note carrying the event's declared type and the
/// decode error.
#[derive(Debug, PartialEq, Eq)]
pub enum Outcome {
    Decoded(TicketBought),
    Failed { event_type: String, error: DecodeError },
}

/// The mathematical value of an [`Outcome`].
pub ghost enum OutcomeView {
    Decoded(TicketView),
    Failed { event_type: Seq<char>, error: DecodeError },
}

impl View for Outcome {
    type V = OutcomeView;

    open spec fn view(&self) -> OutcomeView {
        match *self {
            Outcome::Decoded(t) => OutcomeView::Decoded(t@),
            Outcome::Failed { event_type, error } => OutcomeView::Failed {
                event_type: event_type@,
                error,
            },
        }
    }
}

impl DeepView for Outcome {
    type V = OutcomeView;

    open spec fn deep_view(&self) -> OutcomeView {
        self@
    }
}

/// The outcomes one event contributes: exactly one if its type matches the
/// target, none otherwise.  A non-matching event's payload is never
/// interpreted.
pub open spec fn spec_event_outcomes(target: Seq<char>, e: EventView) -> Seq<OutcomeView> {
    if e.event_type == target {
        match spec_decode(e.contents) {
            Ok(t) => seq![OutcomeView::Decoded(t)],
            Err(error) => seq![OutcomeView::Failed { event_type: e.event_type, error }],
        }
    } else {
        Seq::empty()
    }
}

/// The outcomes of a list of events, in the events' order.
pub open spec fn spec_events_outcomes(target: Seq<char>, events: Seq<EventView>) -> Seq<
    OutcomeView,
>
    decreases events.len(),
{
    if events.len() == 0 {
        Seq::empty()
    } else {
        spec_event_outcomes(target, events[0]) + spec_events_outcomes(
            target,
            events.drop_first(),
        )
    }
}

/// The outcomes of a list of transactions: each transaction's events in
/// order, transactions in order.
pub open spec fn spec_transactions_outcomes(
    target: Seq<char>,
    transactions: Seq<TransactionView>,
) -> Seq<OutcomeView>
    decreases transactions.len(),
{
    if transactions.len() == 0 {
        Seq::empty()
    } else {
        spec_events_outcomes(target, transactions[0].events) + spec_transactions_outcomes(
            target,
            transactions.drop_first(),
        )
    }
}

/// Everything the walker reports for one checkpoint.
pub open spec fn spec_checkpoint_outcomes(target: Seq<char>, cp: CheckpointView) -> Seq<
    OutcomeView,
> {
    spec_transactions_outcomes(target, cp.transactions)
}

/// Appending one event appends its outcomes.
proof fn lemma_events_outcomes_snoc(target: Seq<char>, events: Seq<EventView>, e: EventView)
    ensures
        spec_events_outcomes(target, events.push(e)) == spec_events_outcomes(target, events)
            + spec_event_outcomes(target, e),
    decreases events.len(),
{
    let s = events.push(e);
    assert(s.len() == events.len() + 1);
    if events.len() == 0 {
        assert(s[0] == e);
        assert(s.drop_first() =~= Seq::<EventView>::empty());
        assert(spec_events_outcomes(target, s) == spec_event_outcomes(target, s[0])
            + spec_events_outcomes(target, s.drop_first()));
        assert(spec_events_outcomes(target, s) =~= spec_event_outcomes(target, e));
        assert(spec_events_outcomes(target, events) + spec_event_outcomes(target, e)
            =~= spec_event_outcomes(target, e));
    } else {
        assert(s[0] == events[0]);
        assert(s.drop_first() =~= events.drop_first().push(e));
        lemma_events_outcomes_snoc(target, events.drop_first(), e);
        let a = spec_event_outcomes(target, events[0]);
        let b = spec_events_outcomes(target, events.drop_first());
        let c = spec_event_outcomes(target, e);
        assert(spec_events_outcomes(target, s) == a + spec_events_outcomes(
            target,
            s.drop_first(),
        ));
        assert(spec_events_outcomes(target, s.drop_first()) == b + c);
        assert(spec_events_outcomes(target, events) == a + b);
        assert(a + (b + c) =~= (a + b) + c);
    }
}

/// Appending one transaction appends its outcomes.
proof fn lemma_transactions_outcomes_snoc(
    target: Seq<char>,
    transactions: Seq<TransactionView>,
    tx: TransactionView,
)
    ensures
        spec_transactions_outcomes(target, transactions.push(tx)) == spec_transactions_outcomes(
            target,
            transactions,
        ) + spec_events_outcomes(target, tx.events),
    decreases transactions.len(),
{
    let s = transactions.push(tx);
    assert(s.len() == transactions.len() + 1);
    if transactions.len() == 0 {
        assert(s[0] == tx);
        assert(s.drop_first() =~= Seq::<TransactionView>::empty());
        assert(spec_transactions_outcomes(target, s) == spec_events_outcomes(
            target,
            s[0].events,
        ) + spec_transactions_outcomes(target, s.drop_first()));
        assert(spec_transactions_outcomes(target, s) =~= spec_events_outcomes(
            target,
            tx.events,
        ));
        assert(spec_transactions_outcomes(target, transactions) + spec_events_outcomes(
            target,
            tx.events,
        ) =~= spec_events_outcomes(target, tx.events));
    } else {
        assert(s[0] == transactions[0]);
        assert(s.drop_first() =~= transactions.drop_first().push(tx));
        lemma_transactions_outcomes_snoc(target, transactions.drop_first(), tx);
        let a = spec_events_outcomes(target, transactions[0].events);
        let b = spec_transactions_outcomes(target, transactions.drop_first());
        let c = spec_events_outcomes(target, tx.events);
        assert(spec_transactions_outcomes(target, s) == a + spec_transactions_outcomes(
            target,
            s.drop_first(),
        ));
        assert(spec_transactions_outcomes(target, s.drop_first()) == b + c);
        assert(spec_transactions_outcomes(target, transactions) == a + b);
        assert(a + (b + c) =~= (a + b) + c);
    }
}

/// Law: an event whose declared type is not the target contributes no
/// outcome at all; its payload is never interpreted.
pub proof fn lemma_non_matching_ignored(target: Seq<char>, e: EventView)
    requires
        e.event_type != target,
    ensures
        spec_event_outcomes(target, e) == Seq::<OutcomeView>::empty(),
{
}

/// Law: a matching event contributes exactly one outcome: the decoded
/// record when its payload decodes, the failure note otherwise.
pub proof fn lemma_matching_one_outcome(target: Seq<char>, e: EventView)
    requires
        e.event_type == target,
    ensures
        spec_event_outcomes(target, e).len() == 1,
        spec_decode(e.contents) matches Ok(t) ==> spec_event_outcomes(target, e)[0]
            == OutcomeView::Decoded(t),
        spec_decode(e.contents) matches Err(err) ==> spec_event_outcomes(target, e)[0]
            == (OutcomeView::Failed { event_type: e.event_type, error: err }),
{
}

/// The outcomes of two event lists laid end to end are the outcomes of
/// the first followed by the outcomes of the second.
pub proof fn lemma_events_outcomes_concat(target: Seq<char>, a: Seq<EventView>, b: Seq<EventView>)
    ensures
        spec_events_outcomes(target, a + b) == spec_events_outcomes(target, a)
            + spec_events_outcomes(target, b),
    decreases a.len(),
{
    if a.len() == 0 {
        assert(a + b =~= b);
        assert(spec_events_outcomes(target, a) + spec_events_outcomes(target, b)
            =~= spec_events_outcomes(target, b));
    } else {
        assert((a + b)[0] == a[0]);
        assert((a + b).drop_first() =~= a.drop_first() + b);
        lemma_events_outcomes_concat(target, a.drop_first(), b);
        let x = spec_event_outcomes(target, a[0]);
        let y = spec_events_outcomes(target, a.drop_first());
        let z = spec_events_outcomes(target, b);
        assert(spec_events_outcomes(target, a + b) == x + spec_events_outcomes(
            target,
            (a + b).drop_first(),
        ));
        assert(spec_events_outcomes(target, (a + b).drop_first()) == y + z);
        assert(spec_events_outcomes(target, a) == x + y);
        assert(x + (y + z) =~= (x + y) + z);
    }
}

/// All events of a list of transactions, flattened in traversal order:
/// transactions in their given order, events within each in theirs.
pub open spec fn spec_all_events(transactions: Seq<TransactionView>) -> Seq<EventView>
    decreases transactions.len(),
{
    if transactions.len() == 0 {
        Seq::empty()
    } else {
        transactions[0].events + spec_all_events(transactions.drop_first())
    }
}

/// Law (traversal order): walking a checkpoint is walking its events in
/// the flattened order, every transaction and every event visited exactly
/// once, whatever each event's match outcome.
pub proof fn lemma_extract_in_order(target: Seq<char>, transactions: Seq<TransactionView>)
    ensures
        spec_transactions_outcomes(target, transactions) == spec_events_outcomes(
            target,
            spec_all_events(transactions),
        ),
    decreases transactions.len(),
{
    if transactions.len() == 0 {
    } else {
        lemma_extract_in_order(target, transactions.drop_first());
        lemma_events_outcomes_concat(
            target,
            transactions[0].events,
            spec_all_events(transactions.drop_first()),
        );
    }
}

/// How many outcomes carry a decoded record.
pub open spec fn spec_decoded_count(outs: Seq<OutcomeView>) -> nat
    decreases outs.len(),
{
    if outs.len() == 0 {
        0nat
    } else {
        (if outs[0] is Decoded {
            1nat
        } else {
            0nat
        }) + spec_decoded_count(outs.drop_first())
    }
}

/// How many events declare the target type.
pub open spec fn spec_match_count(target: Seq<char>, events: Seq<EventView>) -> nat
    decreases events.len(),
{
    if events.len() == 0 {
        0nat
    } else {
        (if events[0].event_type == target {
            1nat
        } else {
            0nat
        }) + spec_match_count(target, events.drop_first())
    }
}

/// How many events declare the target type and carry a payload that
/// decodes.
pub open spec fn spec_ok_match_count(target: Seq<char>, events: Seq<EventView>) -> nat
    decreases events.len(),
{
    if events.len() == 0 {
        0nat
    } else {
        (if events[0].event_type == target && spec_decode(events[0].contents) is Ok {
            1nat
        } else {
            0nat
        }) + spec_ok_match_count(target, events.drop_first())
    }
}

/// Law (failure isolation): over any event list, the walker reports one
/// outcome per matching event, and the decoded records are exactly the
/// matching events whose payloads decode.  One malformed matching event
/// among N matching events therefore still leaves N - 1 decoded records.
pub proof fn lemma_failure_isolation(target: Seq<char>, events: Seq<EventView>)
    ensures
        spec_events_outcomes(target, events).len() == spec_match_count(target, events),
        spec_decoded_count(spec_events_outcomes(target, events)) == spec_ok_match_count(
            target,
            events,
        ),
    decreases events.len(),
{
    if events.len() == 0 {
    } else {
        lemma_failure_isolation(target, events.drop_first());
        let x = spec_event_outcomes(target, events[0]);
        let y = spec_events_outcomes(target, events.drop_first());
        lemma_decoded_count_concat(x, y);
        if events[0].event_type == target {
            assert(x.len() == 1);
            assert(x.drop_first() =~= Seq::<OutcomeView>::empty());
            assert(spec_decoded_count(x.drop_first()) == 0);
            assert(spec_decoded_count(x) == (if x[0] is Decoded {
                1nat
            } else {
                0nat
            }));
        } else {
            assert(x =~= Seq::<OutcomeView>::empty());
            assert(spec_decoded_count(x) == 0);
        }
    }
}

/// Decoded records are counted summand by summand.
proof fn lemma_decoded_count_concat(a: Seq<OutcomeView>, b: Seq<OutcomeView>)
    ensures
        spec_decoded_count(a + b) == spec_decoded_count(a) + spec_decoded_count(b),
    decreases a.len(),
{
    if a.len() == 0 {
        assert(a + b =~= b);
    } else {
        assert((a + b)[0] == a[0]);
        assert((a + b).drop_first() =~= a.drop_first() + b);
        lemma_decoded_count_concat(a.drop_first(), b);
    }
}

/// Law (failure isolation, whole checkpoint): the same accounting holds
/// for everything one checkpoint's walk reports.
pub proof fn lemma_checkpoint_failure_isolation(
    target: Seq<char>,
    transactions: Seq<TransactionView>,
)
    ensures
        spec_transactions_outcomes(target, transactions).len() == spec_match_count(
            target,
            spec_all_events(transactions),
        ),
        spec_decoded_count(spec_transactions_outcomes(target, transactions))
            == spec_ok_match_count(target, spec_all_events(transactions)),
{
    lemma_extract_in_order(target, transactions);
    lemma_failure_isolation(target, spec_all_events(transactions));
}

/// Walks one transaction's events in order and appends each matching
/// event's outcome to `out`.
fn extract_events(matcher: &EventMatcher, events: &Vec<Event>, out: &mut Vec<Outcome>)
    ensures
        final (out).deep_view() == old(out).deep_view() + spec_events_outcomes(
            matcher@,
            events.deep_view(),
        ),
{
    let ghost base = out.deep_view();
    let ghost target = matcher@;
    let ghost all = events.deep_view();
    proof {
        assert(base + spec_events_outcomes(target, all.take(0)) =~= base);
    }
    for j in 0..events.len()
        invariant
            target == matcher@,
            all == events.deep_view(),
            all.len() == events.len(),
            out.deep_view() == base + spec_events_outcomes(target, all.take(j as int)),
    {
        let ghost prefix = out.deep_view();
        let e = &events[j];
        if matcher.matches(&e.event_type) {
            match decode(&e.contents) {
                Ok(t) => out.push(Outcome::Decoded(t)),
                Err(error) => out.push(
                    Outcome::Failed { event_type: e.event_type.clone(), error },
                ),
            }
        }
        proof {
            assert(all.take(j + 1) =~= all.take(j as int).push(all[j as int]));
            lemma_events_outcomes_snoc(target, all.take(j as int), all[j as int]);
            assert(out.deep_view() =~= prefix + spec_event_outcomes(target, all[j as int]));
            assert(out.deep_view() =~= base + spec_events_outcomes(target, all.take(j + 1)));
        }
    }
    proof {
        assert(all.take(events.len() as int) =~= all);
    }
}

/// Walks a checkpoint's transactions in their given order and, within
/// each, the events in their given order; keeps the events whose type
/// matches, decodes each kept payload, and reports one outcome per kept
/// event.  A decode failure never stops the traversal.
pub fn extract(checkpoint: &Checkpoint, matcher: &EventMatcher) -> (out: Vec<Outcome>)
    ensures
        out.deep_view() == spec_checkpoint_outcomes(matcher@, checkpoint@),
{
    let mut out: Vec<Outcome> = Vec::new();
    let ghost target = matcher@;
    let ghost txs = checkpoint@.transactions;
    for i in 0..checkpoint.transactions.len()
        invariant
            target == matcher@,
            txs == checkpoint@.transactions,
            txs.len() == checkpoint.transactions.len(),
            out.deep_view() == spec_transactions_outcomes(target, txs.take(i as int)),
    {
        let ghost prefix = out.deep_view();
        extract_events(matcher, &checkpoint.transactions[i].events, &mut out);
        proof {
            assert(txs.take(i + 1) =~= txs.take(i as int).push(txs[i as int]));
            lemma_transactions_outcomes_snoc(target, txs.take(i as int), txs[i as int]);
            assert(out.deep_view() =~= spec_transactions_outcomes(target, txs.take(i + 1)));
        }
    }
    proof {
        assert(txs.take(checkpoint.transactions.len() as int) =~= txs);
    }
    out
}

/// Why a whole checkpoint is rejected: the executor handed the worker a
/// structurally invalid checkpoint.  Decode failures of single events are
/// never escalated to this.
#[derive(Debug, PartialEq, Eq)]
pub enum WorkerError {
    MalformedCheckpoint,
}

/// The unit of work the external executor invokes once per checkpoint.
pub struct CheckpointWorker {
    pub matcher: EventMatcher,
}

impl View for CheckpointWorker {
    type V = Seq<char>;

    open spec fn view(&self) -> Seq<char> {
        self.matcher@
    }
}

impl CheckpointWorker {
    /// A worker that tracks events of the given type identifier.
    pub fn new(target: String) -> (w: CheckpointWorker)
        ensures
            w@ == target@,
    {
        CheckpointWorker { matcher: EventMatcher::new(target) }
    }

    /// Drives the walker over one checkpoint and returns every outcome in
    /// traversal order.  Succeeds once the checkpoint has been fully
    /// walked, whether or not individual events failed to decode.
    pub fn process_checkpoint(&self, checkpoint: &Checkpoint) -> (r: Result<
        Vec<Outcome>,
        WorkerError,
    >)
        ensures
            r is Ok,
            r matches Ok(outs) ==> outs.deep_view() == spec_checkpoint_outcomes(
                self@,
                checkpoint@,
            ),
    {
        Ok(extract(checkpoint, &self.matcher))
    }
}

} // verus!
