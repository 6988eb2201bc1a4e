//! The alert evaluator: matches one decoded tick against the stored rules
//! and performs the mark-sent write for every rule it triggers.
//!
//! A tick triggers a rule when the rule is still active, its symbol joins to
//! the instrument the tick's key resolves to, and the price crosses the
//! threshold in the rule's direction. Triggered rules are marked sent in the
//! same step, which is what makes a second qualifying tick produce no second
//! event.

use vstd::prelude::*;
use crate::bytes::bytes_eq;
use crate::bytes::copy_bytes;
use crate::codec::EntryView;
use crate::codec::FeedBatch;
use crate::codec::Quote;
use crate::registry::InstrumentView;
use crate::registry::Registry;
use crate::registry::last_match;
use crate::rules::AlertEvent;
use crate::rules::Direction;
use crate::rules::EventView;
use crate::rules::RuleStore;
use crate::rules::RuleView;
use crate::rules::distinct_event_ids;
use crate::rules::distinct_ids;
use crate::rules::events_view;
use crate::rules::triggers;

verus! {

/// Whether `rule` is triggered by a tick at `price` for an instrument whose
/// display symbol is `symbol`: it must still be active, join to the symbol,
/// and have its threshold crossed in its direction.
pub open spec fn rule_selected(rule: RuleView, symbol: Seq<u8>, price: u64) -> bool {
    rule.is_active() && rule.symbol == symbol && triggers(rule.direction, price, rule.threshold)
}

/// The event emitted for one triggered rule.
pub open spec fn event_for(rule: RuleView, key: Seq<u8>, price: u64, now: u64) -> EventView {
    EventView {
        rule_id: rule.id,
        instrument_key: key,
        symbol: rule.symbol,
        price: price,
        triggered_at: now,
    }
}

/// The events one tick produces, one per triggered rule, in store order.
pub open spec fn tick_events(
    rules: Seq<RuleView>,
    key: Seq<u8>,
    symbol: Seq<u8>,
    price: u64,
    now: u64,
) -> Seq<EventView>
    decreases rules.len(),
{
    if rules.len() == 0 {
        Seq::empty()
    } else {
        let rest = tick_events(rules.drop_last(), key, symbol, price, now);
        if rule_selected(rules.last(), symbol, price) {
            rest.push(event_for(rules.last(), key, price, now))
        } else {
            rest
        }
    }
}

/// The rule store after one tick: every triggered rule is marked sent, every
/// other rule is untouched.
pub open spec fn mark_triggered(
    rules: Seq<RuleView>,
    symbol: Seq<u8>,
    price: u64,
    now: u64,
) -> Seq<RuleView>
    decreases rules.len(),
{
    if rules.len() == 0 {
        Seq::empty()
    } else {
        let rest = mark_triggered(rules.drop_last(), symbol, price, now);
        if rule_selected(rules.last(), symbol, price) {
            rest.push(rules.last().marked(now))
        } else {
            rest.push(rules.last())
        }
    }
}

/// Marking never adds, drops or reorders rules.
pub proof fn lemma_mark_triggered_len(rules: Seq<RuleView>, symbol: Seq<u8>, price: u64, now: u64)
    ensures
        mark_triggered(rules, symbol, price, now).len() == rules.len(),
    decreases rules.len(),
{
    if rules.len() > 0 {
        lemma_mark_triggered_len(rules.drop_last(), symbol, price, now);
    }
}

/// What one position of the store looks like after a tick: marked if the
/// rule was triggered, unchanged otherwise.
pub proof fn lemma_mark_triggered_at(
    rules: Seq<RuleView>,
    symbol: Seq<u8>,
    price: u64,
    now: u64,
    i: int,
)
    requires
        0 <= i < rules.len(),
    ensures
        mark_triggered(rules, symbol, price, now)[i] == if rule_selected(rules[i], symbol, price) {
            rules[i].marked(now)
        } else {
            rules[i]
        },
    decreases rules.len(),
{
    lemma_mark_triggered_len(rules, symbol, price, now);
    lemma_mark_triggered_len(rules.drop_last(), symbol, price, now);
    if i < rules.len() - 1 {
        lemma_mark_triggered_at(rules.drop_last(), symbol, price, now, i);
    }
}

/// Every emitted event comes from a rule that the tick triggered.
pub proof fn lemma_tick_events_membership(
    rules: Seq<RuleView>,
    key: Seq<u8>,
    symbol: Seq<u8>,
    price: u64,
    now: u64,
    e: EventView,
)
    requires
        tick_events(rules, key, symbol, price, now).contains(e),
    ensures
        exists|i: int|
            0 <= i < rules.len() && rule_selected(#[trigger] rules[i], symbol, price) && e
                == event_for(rules[i], key, price, now),
    decreases rules.len(),
{
    let evs = tick_events(rules, key, symbol, price, now);
    let rest = tick_events(rules.drop_last(), key, symbol, price, now);
    if rule_selected(rules.last(), symbol, price) && e == event_for(
        rules.last(),
        key,
        price,
        now,
    ) {
        assert(rule_selected(rules[rules.len() - 1], symbol, price));
    } else {
        assert(rest.contains(e)) by {
            let j = choose|j: int| 0 <= j < evs.len() && evs[j] == e;
            assert(j < rest.len());
            assert(rest[j] == e);
        }
        lemma_tick_events_membership(rules.drop_last(), key, symbol, price, now, e);
        let i = choose|i: int|
            0 <= i < rules.drop_last().len() && rule_selected(
                #[trigger] rules.drop_last()[i],
                symbol,
                price,
            ) && e == event_for(rules.drop_last()[i], key, price, now);
        assert(rules[i] == rules.drop_last()[i]);
        assert(rule_selected(rules[i], symbol, price));
    }
}

/// A tick fires each rule at most once: with pairwise-distinct rule ids, no
/// two events of one evaluation name the same rule.
pub proof fn lemma_tick_events_distinct(
    rules: Seq<RuleView>,
    key: Seq<u8>,
    symbol: Seq<u8>,
    price: u64,
    now: u64,
)
    requires
        distinct_ids(rules),
    ensures
        distinct_event_ids(tick_events(rules, key, symbol, price, now)),
    decreases rules.len(),
{
    if rules.len() > 0 {
        lemma_tick_events_distinct(rules.drop_last(), key, symbol, price, now);
        let evs = tick_events(rules, key, symbol, price, now);
        let rest = tick_events(rules.drop_last(), key, symbol, price, now);
        assert forall|a: int, b: int|
            0 <= a < evs.len() && 0 <= b < evs.len() && a != b implies evs[a].rule_id
            != evs[b].rule_id by {
            if rule_selected(rules.last(), symbol, price) {
                if a < rest.len() && b < rest.len() {
                    assert(evs[a] == rest[a] && evs[b] == rest[b]);
                } else {
                    let p = if a < rest.len() {
                        a
                    } else {
                        b
                    };
                    assert(evs[p] == rest[p]);
                    assert(rest.contains(rest[p]));
                    lemma_tick_events_membership(
                        rules.drop_last(),
                        key,
                        symbol,
                        price,
                        now,
                        rest[p],
                    );
                    let i = choose|i: int|
                        0 <= i < rules.drop_last().len() && rule_selected(
                            #[trigger] rules.drop_last()[i],
                            symbol,
                            price,
                        ) && rest[p] == event_for(rules.drop_last()[i], key, price, now);
                    assert(rules[i] == rules.drop_last()[i]);
                    assert(rules[i].id != rules.last().id);
                }
            } else {
                assert(evs == rest);
            }
        }
    }
}

/// The one sanctioned write never reverts: a rule that is already sent is
/// left exactly as it was by every later tick, timestamp included.
pub proof fn lemma_sent_never_reverts(
    rules: Seq<RuleView>,
    symbol: Seq<u8>,
    price: u64,
    now: u64,
    i: int,
)
    requires
        0 <= i < rules.len(),
        rules[i].sent_at is Some,
    ensures
        mark_triggered(rules, symbol, price, now)[i] == rules[i],
{
    lemma_mark_triggered_at(rules, symbol, price, now, i);
}

/// At-most-once across ticks: a rule that one tick triggers is marked sent
/// by that same tick, so a later tick over the updated store never emits a
/// second event for the same rule, whatever its key, symbol, price or time.
pub proof fn lemma_at_most_once(
    rules: Seq<RuleView>,
    key1: Seq<u8>,
    sym1: Seq<u8>,
    price1: u64,
    now1: u64,
    key2: Seq<u8>,
    sym2: Seq<u8>,
    price2: u64,
    now2: u64,
)
    requires
        distinct_ids(rules),
    ensures
        forall|e1: EventView, e2: EventView|
            tick_events(rules, key1, sym1, price1, now1).contains(e1) && tick_events(
                mark_triggered(rules, sym1, price1, now1),
                key2,
                sym2,
                price2,
                now2,
            ).contains(e2) ==> e1.rule_id != e2.rule_id,
{
    let marked = mark_triggered(rules, sym1, price1, now1);
    lemma_mark_triggered_len(rules, sym1, price1, now1);
    assert forall|e1: EventView, e2: EventView|
        tick_events(rules, key1, sym1, price1, now1).contains(e1) && tick_events(
            marked,
            key2,
            sym2,
            price2,
            now2,
        ).contains(e2) implies e1.rule_id != e2.rule_id by {
        lemma_tick_events_membership(rules, key1, sym1, price1, now1, e1);
        lemma_tick_events_membership(marked, key2, sym2, price2, now2, e2);
        let i = choose|i: int|
            0 <= i < rules.len() && rule_selected(#[trigger] rules[i], sym1, price1) && e1
                == event_for(rules[i], key1, price1, now1);
        let j = choose|j: int|
            0 <= j < marked.len() && rule_selected(#[trigger] marked[j], sym2, price2) && e2
                == event_for(marked[j], key2, price2, now2);
        lemma_mark_triggered_at(rules, sym1, price1, now1, j);
        if i == j {
            assert(rule_selected(rules[i], sym1, price1));
            assert(marked[j] == rules[j].marked(now1));
            assert(!marked[j].is_active());
        } else {
            assert(marked[j].id == rules[j].id);
            assert(rules[i].id != rules[j].id);
        }
    }
}

/// Evaluate one tick: resolve the key against the registry, emit one event
/// per triggered rule, and mark each of those rules sent. A key the registry
/// does not know produces no event and changes nothing.
pub fn evaluate_tick(
    registry: &Registry,
    store: &mut RuleStore,
    key: &[u8],
    price: u64,
    now: u64,
) -> (events: Vec<AlertEvent>)
    requires
        old(store).wf(),
    ensures
        final(store).wf(),
        match last_match(registry@, key@) {
            Some(instr) => {
                &&& events_view(events@) == tick_events(
                    old(store)@,
                    key@,
                    instr.display_symbol,
                    price,
                    now,
                )
                &&& final(store)@ == mark_triggered(
                    old(store)@,
                    instr.display_symbol,
                    price,
                    now,
                )
            },
            None => {
                &&& events@.len() == 0
                &&& final(store)@ == old(store)@
            },
        },
{
    let mut events: Vec<AlertEvent> = Vec::new();
    let resolved = registry.lookup(key);
    let instr = match resolved {
        Some(instr) => instr,
        None => {
            return events;
        },
    };
    let symbol: &[u8] = instr.display_symbol.as_slice();
    let ghost sym = instr@.display_symbol;
    let n = store.rule_count();
    let mut i: usize = 0;
    while i < n
        invariant
            i <= n,
            n == old(store)@.len(),
            store@.len() == old(store)@.len(),
            store.wf(),
            old(store).wf(),
            sym == symbol@,
            events_view(events@) == tick_events(
                old(store)@.take(i as int),
                key@,
                sym,
                price,
                now,
            ),
            store@ =~= mark_triggered(old(store)@.take(i as int), sym, price, now) + old(
                store,
            )@.skip(i as int),
        decreases n - i,
    {
        proof {
            lemma_mark_triggered_len(old(store)@.take(i as int), sym, price, now);
            assert(store@[i as int] == old(store)@[i as int]);
            assert(old(store)@.take(i + 1).drop_last() =~= old(store)@.take(i as int));
            assert(old(store)@.take(i + 1).last() == old(store)@[i as int]);
        }
        let ghost rv = old(store)@[i as int];
        let rule = store.rule_at(i);
        let active = rule.sent_at.is_none();
        let joined = bytes_eq(rule.symbol.as_slice(), symbol);
        let crossed = match rule.direction {
            Direction::Above => price >= rule.threshold,
            Direction::Below => price <= rule.threshold,
        };
        if active && joined && crossed {
            proof {
                assert(rule_selected(rv, sym, price));
            }
            let event = AlertEvent {
                rule_id: rule.id,
                instrument_key: copy_bytes(key),
                symbol: copy_bytes(rule.symbol.as_slice()),
                price: price,
                triggered_at: now,
            };
            let ghost events_prev = events@;
            events.push(event);
            proof {
                assert(events_view(events@) =~= events_view(events_prev).push(
                    event_for(rv, key@, price, now),
                ));
            }
            store.mark_sent_at(i, now);
            proof {
                assert(store@ =~= mark_triggered(old(store)@.take(i + 1), sym, price, now)
                    + old(store)@.skip(i + 1));
            }
        } else {
            proof {
                assert(!rule_selected(rv, sym, price));
                assert(store@ =~= mark_triggered(old(store)@.take(i + 1), sym, price, now)
                    + old(store)@.skip(i + 1));
            }
        }
        i += 1;
    }
    proof {
        assert(old(store)@.take(n as int) =~= old(store)@);
        assert(old(store)@.skip(n as int) =~= Seq::<RuleView>::empty());
        assert(store@ =~= mark_triggered(old(store)@, sym, price, now));
    }
    events
}

/// What one batch entry does to the store: only an `Ltpc` quote whose key
/// the registry resolves evaluates; everything else is a no-op.
pub open spec fn tick_step(
    rules: Seq<RuleView>,
    reg: Seq<InstrumentView>,
    e: EntryView,
    now: u64,
) -> (Seq<EventView>, Seq<RuleView>) {
    match e.quote {
        Quote::Ltpc { price, close_price } => match last_match(reg, e.key) {
            Some(instr) => (
                tick_events(rules, e.key, instr.display_symbol, price, now),
                mark_triggered(rules, instr.display_symbol, price, now),
            ),
            None => (Seq::empty(), rules),
        },
        _ => (Seq::empty(), rules),
    }
}

/// A whole batch evaluated strictly in wire order, each entry seeing the
/// store as the previous entry left it.
pub open spec fn batch_eval(
    rules: Seq<RuleView>,
    reg: Seq<InstrumentView>,
    entries: Seq<EntryView>,
    now: u64,
) -> (Seq<EventView>, Seq<RuleView>)
    decreases entries.len(),
{
    if entries.len() == 0 {
        (Seq::empty(), rules)
    } else {
        let prior = batch_eval(rules, reg, entries.drop_last(), now);
        let step = tick_step(prior.1, reg, entries.last(), now);
        (prior.0 + step.0, step.1)
    }
}

/// Evaluate every entry of a decoded batch, in order.
pub fn evaluate_batch(
    registry: &Registry,
    store: &mut RuleStore,
    batch: &FeedBatch,
    now: u64,
) -> (events: Vec<AlertEvent>)
    requires
        old(store).wf(),
    ensures
        final(store).wf(),
        events_view(events@) == batch_eval(old(store)@, registry@, batch@, now).0,
        final(store)@ == batch_eval(old(store)@, registry@, batch@, now).1,
{
    let mut events: Vec<AlertEvent> = Vec::new();
    let n = batch.entries.len();
    let mut i: usize = 0;
    proof {
        assert(events_view(events@) =~= Seq::<EventView>::empty());
        assert(batch@.take(0) =~= Seq::<EntryView>::empty());
    }
    while i < n
        invariant
            i <= n,
            n == batch@.len(),
            batch@.len() == batch.entries@.len(),
            store.wf(),
            old(store).wf(),
            events_view(events@) == batch_eval(old(store)@, registry@, batch@.take(i as int), now).0,
            store@ == batch_eval(old(store)@, registry@, batch@.take(i as int), now).1,
        decreases n - i,
    {
        proof {
            assert(batch@[i as int] == batch.entries@[i as int]@);
            assert(batch@.take(i + 1).drop_last() =~= batch@.take(i as int));
            assert(batch@.take(i + 1).last() == batch@[i as int]);
        }
        let ghost pre_rules = store@;
        let ghost pre_events = events@;
        let entry = &batch.entries[i];
        match entry.quote {
            Quote::Ltpc { price, close_price: _ } => {
                let mut evs = evaluate_tick(registry, store, entry.key.as_slice(), price, now);
                let ghost evs_view = events_view(evs@);
                events.append(&mut evs);
                proof {
                    assert(events_view(events@) =~= events_view(pre_events) + evs_view);
                }
            },
            _ => {},
        }
        proof {
            assert(events_view(events@) =~= batch_eval(
                old(store)@,
                registry@,
                batch@.take(i + 1),
                now,
            ).0);
        }
        i += 1;
    }
    proof {
        assert(batch@.take(n as int) =~= batch@);
    }
    events
}

/// At-most-once over a whole batch, however many qualifying entries it
/// holds: with pairwise-distinct rule ids, the events of one batch
/// evaluation never name the same rule twice, and every rule that fired is
/// left marked sent in the store the batch leaves behind.
pub proof fn lemma_batch_at_most_once(
    rules: Seq<RuleView>,
    reg: Seq<InstrumentView>,
    entries: Seq<EntryView>,
    now: u64,
)
    requires
        distinct_ids(rules),
    ensures
        batch_eval(rules, reg, entries, now).1.len() == rules.len(),
        forall|i: int|
            0 <= i < rules.len() ==> (#[trigger] batch_eval(rules, reg, entries, now).1[i]).id
                == rules[i].id,
        forall|p: int|
            0 <= p < batch_eval(rules, reg, entries, now).0.len() ==> exists|i: int|
                0 <= i < rules.len() && rules[i].id == (#[trigger] batch_eval(
                    rules,
                    reg,
                    entries,
                    now,
                ).0[p]).rule_id && !batch_eval(rules, reg, entries, now).1[i].is_active(),
        distinct_event_ids(batch_eval(rules, reg, entries, now).0),
    decreases entries.len(),
{
    if entries.len() == 0 {
        return ;
    }
    lemma_batch_at_most_once(rules, reg, entries.drop_last(), now);
    let prior = batch_eval(rules, reg, entries.drop_last(), now);
    let out = batch_eval(rules, reg, entries, now);
    let e = entries.last();
    match e.quote {
        Quote::Ltpc { price, close_price } => {
            match last_match(reg, e.key) {
                Some(instr) => {
                    let sym = instr.display_symbol;
                    let step_events = tick_events(prior.1, e.key, sym, price, now);
                    let marked = mark_triggered(prior.1, sym, price, now);
                    assert(out.0 == prior.0 + step_events);
                    assert(out.1 == marked);
                    lemma_mark_triggered_len(prior.1, sym, price, now);
                    assert(distinct_ids(prior.1)) by {
                        assert forall|a: int, b: int|
                            0 <= a < prior.1.len() && 0 <= b < prior.1.len() && a != b
                                implies prior.1[a].id != prior.1[b].id by {
                            assert(prior.1[a].id == rules[a].id);
                            assert(prior.1[b].id == rules[b].id);
                        }
                    }
                    assert forall|i: int| 0 <= i < rules.len() implies (#[trigger] out.1[i]).id
                        == rules[i].id by {
                        lemma_mark_triggered_at(prior.1, sym, price, now, i);
                        assert(prior.1[i].id == rules[i].id);
                    }
                    assert forall|p: int| 0 <= p < out.0.len() implies exists|i: int|
                        0 <= i < rules.len() && rules[i].id == (#[trigger] out.0[p]).rule_id
                            && !out.1[i].is_active() by {
                        if p < prior.0.len() {
                            assert(out.0[p] == prior.0[p]);
                            let i = choose|i: int|
                                0 <= i < rules.len() && rules[i].id == prior.0[p].rule_id
                                    && !prior.1[i].is_active();
                            lemma_mark_triggered_at(prior.1, sym, price, now, i);
                            assert(!out.1[i].is_active());
                            assert(rules[i].id == out.0[p].rule_id);
                        } else {
                            let q = p - prior.0.len();
                            assert(out.0[p] == step_events[q]);
                            assert(step_events.contains(step_events[q]));
                            lemma_tick_events_membership(
                                prior.1,
                                e.key,
                                sym,
                                price,
                                now,
                                step_events[q],
                            );
                            let j = choose|j: int|
                                0 <= j < prior.1.len() && rule_selected(
                                    #[trigger] prior.1[j],
                                    sym,
                                    price,
                                ) && step_events[q] == event_for(prior.1[j], e.key, price, now);
                            lemma_mark_triggered_at(prior.1, sym, price, now, j);
                            assert(out.1[j] == prior.1[j].marked(now));
                            assert(!out.1[j].is_active());
                            assert(rules[j].id == out.0[p].rule_id);
                        }
                    }
                    lemma_tick_events_distinct(prior.1, e.key, sym, price, now);
                    assert forall|a: int, b: int|
                        0 <= a < out.0.len() && 0 <= b < out.0.len() && a != b implies out.0[
                        a].rule_id != out.0[b].rule_id by {
                        if a < prior.0.len() && b < prior.0.len() {
                            assert(out.0[a] == prior.0[a] && out.0[b] == prior.0[b]);
                        } else if a >= prior.0.len() && b >= prior.0.len() {
                            assert(out.0[a] == step_events[a - prior.0.len()]);
                            assert(out.0[b] == step_events[b - prior.0.len()]);
                        } else {
                            let pp = if a < prior.0.len() {
                                a
                            } else {
                                b
                            };
                            let sp = if a < prior.0.len() {
                                b
                            } else {
                                a
                            };
                            assert(out.0[pp] == prior.0[pp]);
                            let q = sp - prior.0.len();
                            assert(out.0[sp] == step_events[q]);
                            let i = choose|i: int|
                                0 <= i < rules.len() && rules[i].id == prior.0[pp].rule_id
                                    && !prior.1[i].is_active();
                            assert(step_events.contains(step_events[q]));
                            lemma_tick_events_membership(
                                prior.1,
                                e.key,
                                sym,
                                price,
                                now,
                                step_events[q],
                            );
                            let j = choose|j: int|
                                0 <= j < prior.1.len() && rule_selected(
                                    #[trigger] prior.1[j],
                                    sym,
                                    price,
                                ) && step_events[q] == event_for(prior.1[j], e.key, price, now);
                            assert(prior.1[j].is_active());
                            if i == j {
                                assert(false);
                            } else {
                                assert(rules[i].id != rules[j].id);
                                assert(prior.1[j].id == rules[j].id);
                            }
                        }
                    }
                },
                None => {
                    assert(out.0 =~= prior.0);
                    assert(out.1 == prior.1);
                },
            }
        },
        _ => {
            assert(out.0 =~= prior.0);
            assert(out.1 == prior.1);
        },
    }
}

/// Across frames too, the write never reverts: a rule already marked sent
/// is left exactly as it is by every later batch, so firing in one frame
/// silences a rule for the whole session.
pub proof fn lemma_batch_never_reverts(
    rules: Seq<RuleView>,
    reg: Seq<InstrumentView>,
    entries: Seq<EntryView>,
    now: u64,
    i: int,
)
    requires
        0 <= i < rules.len(),
        !rules[i].is_active(),
    ensures
        batch_eval(rules, reg, entries, now).1.len() == rules.len(),
        batch_eval(rules, reg, entries, now).1[i] == rules[i],
    decreases entries.len(),
{
    if entries.len() == 0 {
        return ;
    }
    lemma_batch_never_reverts(rules, reg, entries.drop_last(), now, i);
    let prior = batch_eval(rules, reg, entries.drop_last(), now);
    let e = entries.last();
    match e.quote {
        Quote::Ltpc { price, close_price } => {
            match last_match(reg, e.key) {
                Some(instr) => {
                    lemma_mark_triggered_len(prior.1, instr.display_symbol, price, now);
                    lemma_mark_triggered_at(prior.1, instr.display_symbol, price, now, i);
                },
                None => {},
            }
        },
        _ => {},
    }
}

} // verus!
