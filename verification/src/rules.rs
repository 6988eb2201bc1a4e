//! Alert rules, the rule store, and the triggered-alert event record.
//!
//! Prices and thresholds are fixed-point values in hundredths (so `10150`
//! stands for 101.50); timestamps are milliseconds since the epoch. A rule's
//! `sent_at` field moves from `None` to `Some` exactly once and never changes
//! again: that single sanctioned write is what makes every alert fire at most
//! once.

use vstd::prelude::*;
use crate::bytes::copy_bytes;

verus! {

/// Trigger direction of an alert rule: fire when the price is at or above,
/// or at or below, the rule's threshold.
#[derive(Clone, Copy, Debug, PartialEq, Eq, Structural)]
pub enum Direction {
    Above,
    Below,
}

/// Whether a price satisfies the trigger predicate of a rule with the given
/// direction and threshold.
pub open spec fn triggers(direction: Direction, price: u64, threshold: u64) -> bool {
    match direction {
        Direction::Above => price >= threshold,
        Direction::Below => price <= threshold,
    }
}

/// Mathematical image of a stored rule.
pub ghost struct RuleView {
    pub id: u64,
    pub symbol: Seq<u8>,
    pub threshold: u64,
    pub direction: Direction,
    pub created_at: u64,
    pub sent_at: Option<u64>,
}

impl RuleView {
    /// A well-formed rule has a positive threshold.
    pub open spec fn wf(self) -> bool {
        self.threshold >= 1
    }

    /// A rule is active while it has never been marked sent.
    pub open spec fn is_active(self) -> bool {
        self.sent_at is None
    }

    /// The same rule once its one sanctioned write has happened.
    pub open spec fn marked(self, now: u64) -> RuleView {
        RuleView { sent_at: Some(now), ..self }
    }
}

/// A stored threshold rule. `symbol` joins against an instrument's display
/// symbol; `threshold` is a positive fixed-point price.
#[derive(Debug)]
pub struct AlertRule {
    pub id: u64,
    pub symbol: Vec<u8>,
    pub threshold: u64,
    pub direction: Direction,
    pub created_at: u64,
    pub sent_at: Option<u64>,
}

impl View for AlertRule {
    type V = RuleView;

    open spec fn view(&self) -> RuleView {
        RuleView {
            id: self.id,
            symbol: self.symbol@,
            threshold: self.threshold,
            direction: self.direction,
            created_at: self.created_at,
            sent_at: self.sent_at,
        }
    }
}

impl Clone for AlertRule {
    /// An owned copy with the same mathematical value.
    fn clone(&self) -> (r: AlertRule)
        ensures
            r@ == self@,
    {
        AlertRule {
            id: self.id,
            symbol: copy_bytes(self.symbol.as_slice()),
            threshold: self.threshold,
            direction: self.direction,
            created_at: self.created_at,
            sent_at: self.sent_at,
        }
    }
}

/// Mathematical image of a triggered-alert event.
pub ghost struct EventView {
    pub rule_id: u64,
    pub instrument_key: Seq<u8>,
    pub symbol: Seq<u8>,
    pub price: u64,
    pub triggered_at: u64,
}

/// The record emitted for a triggered rule, immutable once produced.
#[derive(Debug)]
pub struct AlertEvent {
    pub rule_id: u64,
    pub instrument_key: Vec<u8>,
    pub symbol: Vec<u8>,
    pub price: u64,
    pub triggered_at: u64,
}

impl View for AlertEvent {
    type V = EventView;

    open spec fn view(&self) -> EventView {
        EventView {
            rule_id: self.rule_id,
            instrument_key: self.instrument_key@,
            symbol: self.symbol@,
            price: self.price,
            triggered_at: self.triggered_at,
        }
    }
}

/// The views of a sequence of stored rules.
pub open spec fn rules_view(rules: Seq<AlertRule>) -> Seq<RuleView> {
    rules.map_values(|r: AlertRule| r@)
}

/// The views of a sequence of emitted events.
pub open spec fn events_view(events: Seq<AlertEvent>) -> Seq<EventView> {
    events.map_values(|e: AlertEvent| e@)
}

/// The rules of `rules` that are active and joined to `symbol`, in store
/// order.
pub open spec fn active_for_symbol(rules: Seq<RuleView>, symbol: Seq<u8>) -> Seq<RuleView>
    decreases rules.len(),
{
    if rules.len() == 0 {
        Seq::empty()
    } else {
        let rest = active_for_symbol(rules.drop_last(), symbol);
        if rules.last().is_active() && rules.last().symbol == symbol {
            rest.push(rules.last())
        } else {
            rest
        }
    }
}

/// Pairwise-distinct rule ids: every id names at most one rule.
pub open spec fn distinct_ids(rules: Seq<RuleView>) -> bool {
    forall|i: int, j: int|
        0 <= i < rules.len() && 0 <= j < rules.len() && i != j ==> rules[i].id != rules[j].id
}

/// Pairwise-distinct rule ids among emitted events: no rule is named twice.
pub open spec fn distinct_event_ids(events: Seq<EventView>) -> bool {
    forall|a: int, b: int|
        0 <= a < events.len() && 0 <= b < events.len() && a != b ==> events[a].rule_id
            != events[b].rule_id
}

/// Outcome of the conditional mark-sent write.
#[derive(Clone, Copy, Debug, PartialEq, Eq, Structural)]
pub enum MarkOutcome {
    /// The rule existed, was still unsent, and is now marked.
    Marked,
    /// The rule existed but had already been marked sent; nothing changed.
    AlreadySent,
    /// No rule with that id exists.
    NotFound,
}

/// In-memory rule store: the single piece of shared state the pipeline
/// writes. Rule ids are unique.
pub struct RuleStore {
    rules: Vec<AlertRule>,
}

impl View for RuleStore {
    type V = Seq<RuleView>;

    closed spec fn view(&self) -> Seq<RuleView> {
        rules_view(self.rules@)
    }
}

impl RuleStore {
    /// Rule ids are pairwise distinct and every rule has a positive
    /// threshold.
    pub open spec fn wf(self) -> bool {
        &&& distinct_ids(self@)
        &&& forall|i: int| 0 <= i < self@.len() ==> (#[trigger] self@[i]).wf()
    }

    /// An empty store.
    pub fn new() -> (store: RuleStore)
        ensures
            store@ == Seq::<RuleView>::empty(),
            store.wf(),
    {
        let store = RuleStore { rules: Vec::new() };
        proof {
            assert(store@ =~= Seq::<RuleView>::empty());
        }
        store
    }

    /// How many rules are stored.
    pub fn rule_count(&self) -> (n: usize)
        ensures
            n == self@.len(),
    {
        self.rules.len()
    }

    /// Add a rule. Rejected if its id is already taken or its threshold is
    /// not positive; the store is unchanged in that case.
    pub fn add_rule(&mut self, rule: AlertRule) -> (added: bool)
        requires
            old(self).wf(),
        ensures
            final(self).wf(),
            added <==> (rule@.wf() && forall|i: int|
                0 <= i < old(self)@.len() ==> (#[trigger] old(self)@[i]).id != rule@.id),
            added ==> final(self)@ == old(self)@.push(rule@),
            !added ==> final(self)@ == old(self)@,
    {
        if rule.threshold < 1 {
            return false;
        }
        let mut i: usize = 0;
        while i < self.rules.len()
            invariant
                i <= self@.len(),
                self@.len() == self.rules@.len(),
                self@ == old(self)@,
                old(self).wf(),
                rule@.wf(),
                forall|p: int| 0 <= p < i ==> (#[trigger] self@[p]).id != rule@.id,
            decreases self@.len() - i,
        {
            proof {
                assert(self@[i as int] == self.rules@[i as int]@);
            }
            if self.rules[i].id == rule.id {
                return false;
            }
            i += 1;
        }
        let ghost old_view = self@;
        self.rules.push(rule);
        proof {
            assert(self@ =~= old_view.push(self.rules@.last()@));
        }
        true
    }

    /// Copies of the active rules joined to `symbol`, in store order: the
    /// candidate set one tick is evaluated against.
    pub fn list_active_rules(&self, symbol: &[u8]) -> (out: Vec<AlertRule>)
        ensures
            rules_view(out@) == active_for_symbol(self@, symbol@),
    {
        let mut out: Vec<AlertRule> = Vec::new();
        let mut i: usize = 0;
        while i < self.rules.len()
            invariant
                i <= self@.len(),
                self@.len() == self.rules@.len(),
                rules_view(out@) == active_for_symbol(self@.take(i as int), symbol@),
            decreases self@.len() - i,
        {
            proof {
                assert(self@[i as int] == self.rules@[i as int]@);
                assert(self@.take(i + 1).drop_last() =~= self@.take(i as int));
                assert(self@.take(i + 1).last() == self@[i as int]);
            }
            let ghost out_prev = out@;
            if self.rules[i].sent_at.is_none() && crate::bytes::bytes_eq(
                self.rules[i].symbol.as_slice(),
                symbol,
            ) {
                out.push(self.rules[i].clone());
                proof {
                    assert(rules_view(out@) =~= rules_view(out_prev).push(out@.last()@));
                }
            }
            i += 1;
        }
        proof {
            assert(self@.take(self@.len() as int) =~= self@);
        }
        out
    }

    /// Read one stored rule.
    pub fn rule_at(&self, i: usize) -> (r: &AlertRule)
        requires
            i < self@.len(),
        ensures
            r@ == self@[i as int],
    {
        &self.rules[i]
    }

    /// Mark the rule at a known position sent. The caller must know the rule
    /// is still active: the write never overwrites an earlier `sent_at`.
    pub fn mark_sent_at(&mut self, i: usize, now: u64)
        requires
            i < old(self)@.len(),
            old(self)@[i as int].is_active(),
        ensures
            final(self)@ == old(self)@.update(i as int, old(self)@[i as int].marked(now)),
            old(self).wf() ==> final(self).wf(),
    {
        proof {
            assert(self@[i as int] == self.rules@[i as int]@);
        }
        let slot = &mut self.rules[i];
        slot.sent_at = Some(now);
        proof {
            assert(self@ =~= old(self)@.update(i as int, old(self)@[i as int].marked(now)));
            if old(self).wf() {
                assert forall|a: int, b: int|
                    0 <= a < self@.len() && 0 <= b < self@.len() && a != b implies self@[a].id
                    != self@[b].id by {
                    assert(old(self)@[a].id != old(self)@[b].id);
                }
                assert forall|a: int| 0 <= a < self@.len() implies (#[trigger] self@[a]).wf() by {
                    assert(old(self)@[a].wf());
                }
            }
        }
    }

    /// The conditional mark-sent write: set `sent_at` to `now` only if it is
    /// still absent. The one sanctioned mutation of a stored rule.
    pub fn mark_sent(&mut self, id: u64, now: u64) -> (outcome: MarkOutcome)
        requires
            old(self).wf(),
        ensures
            final(self).wf(),
            match outcome {
                MarkOutcome::Marked => exists|i: int|
                    0 <= i < old(self)@.len() && (#[trigger] old(self)@[i]).id == id && old(
                        self,
                    )@[i].is_active() && final(self)@ == old(self)@.update(
                        i,
                        old(self)@[i].marked(now),
                    ),
                MarkOutcome::AlreadySent => final(self)@ == old(self)@ && exists|i: int|
                    0 <= i < old(self)@.len() && (#[trigger] old(self)@[i]).id == id && !old(
                        self,
                    )@[i].is_active(),
                MarkOutcome::NotFound => final(self)@ == old(self)@ && forall|i: int|
                    0 <= i < old(self)@.len() ==> (#[trigger] old(self)@[i]).id != id,
            },
    {
        let mut i: usize = 0;
        while i < self.rules.len()
            invariant
                i <= self@.len(),
                self@.len() == self.rules@.len(),
                self@ == old(self)@,
                old(self).wf(),
                forall|p: int| 0 <= p < i ==> (#[trigger] self@[p]).id != id,
            decreases self@.len() - i,
        {
            proof {
                assert(self@[i as int] == self.rules@[i as int]@);
            }
            if self.rules[i].id == id {
                if self.rules[i].sent_at.is_some() {
                    proof {
                        assert((old(self)@[i as int]).id == id);
                        assert(!old(self)@[i as int].is_active());
                    }
                    return MarkOutcome::AlreadySent;
                }
                let slot = &mut self.rules[i];
                slot.sent_at = Some(now);
                proof {
                    assert(self@ =~= old(self)@.update(
                        i as int,
                        old(self)@[i as int].marked(now),
                    ));
                    assert((old(self)@[i as int]).id == id);
                    assert(old(self)@[i as int].is_active());
                    assert(self.wf()) by {
                        assert forall|a: int, b: int|
                            0 <= a < self@.len() && 0 <= b < self@.len() && a != b implies self@[a].id
                            != self@[b].id by {
                            assert(old(self)@[a].id != old(self)@[b].id);
                        }
                        assert forall|a: int| 0 <= a < self@.len() implies (
                        #[trigger] self@[a]).wf() by {
                            assert(old(self)@[a].wf());
                        }
                    }
                }
                return MarkOutcome::Marked;
            }
            i += 1;
        }
        MarkOutcome::NotFound
    }
}

} // verus!
