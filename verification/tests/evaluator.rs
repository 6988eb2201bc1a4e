use feed_alerts::evaluator::evaluate_tick;
use feed_alerts::registry::Registry;
use feed_alerts::rules::AlertRule;
use feed_alerts::rules::Direction;
use feed_alerts::rules::MarkOutcome;
use feed_alerts::rules::RuleStore;

fn store_with(rules: Vec<AlertRule>) -> RuleStore {
    let mut store = RuleStore::new();
    for rule in rules {
        assert!(store.add_rule(rule));
    }
    store
}

fn rule(id: u64, symbol: &[u8], threshold: u64, direction: Direction) -> AlertRule {
    AlertRule {
        id,
        symbol: symbol.to_vec(),
        threshold,
        direction,
        created_at: 1,
        sent_at: None,
    }
}

#[test]
fn above_rule_triggers_once() {
    // threshold 100.00, direction above, unsent
    let reg = Registry::load(b"FOO,1,1,f,NSE_F").unwrap();
    let mut store = store_with(vec![rule(1, b"FOO", 10000, Direction::Above)]);
    let events = evaluate_tick(&reg, &mut store, b"NSE_F", 10100, 50);
    assert_eq!(events.len(), 1);
    assert_eq!(events[0].rule_id, 1);
    assert_eq!(events[0].symbol, b"FOO".to_vec());
    assert_eq!(events[0].instrument_key, b"NSE_F".to_vec());
    assert_eq!(events[0].price, 10100);
    assert_eq!(events[0].triggered_at, 50);
    // a later qualifying tick finds the rule already sent
    let again = evaluate_tick(&reg, &mut store, b"NSE_F", 10500, 51);
    assert_eq!(again.len(), 0);
    assert_eq!(store.list_active_rules(b"FOO").len(), 0);
}

#[test]
fn above_rule_needs_threshold_crossed() {
    let reg = Registry::load(b"FOO,1,1,f,NSE_F").unwrap();
    let mut store = store_with(vec![rule(1, b"FOO", 10000, Direction::Above)]);
    let events = evaluate_tick(&reg, &mut store, b"NSE_F", 9999, 50);
    assert_eq!(events.len(), 0);
    assert_eq!(store.list_active_rules(b"FOO").len(), 1);
}

#[test]
fn below_rule_triggers_under_threshold() {
    // threshold 50.00, direction below
    let reg = Registry::load(b"FOO,1,1,f,NSE_F").unwrap();
    let mut store = store_with(vec![rule(1, b"FOO", 5000, Direction::Below)]);
    let events = evaluate_tick(&reg, &mut store, b"NSE_F", 4900, 7);
    assert_eq!(events.len(), 1);
    assert_eq!(events[0].price, 4900);
}

#[test]
fn below_rule_ignores_higher_price() {
    let reg = Registry::load(b"FOO,1,1,f,NSE_F").unwrap();
    let mut store = store_with(vec![rule(1, b"FOO", 5000, Direction::Below)]);
    let events = evaluate_tick(&reg, &mut store, b"NSE_F", 5100, 7);
    assert_eq!(events.len(), 0);
    assert_eq!(store.list_active_rules(b"FOO").len(), 1);
}

#[test]
fn boundary_price_triggers_both_directions() {
    let reg = Registry::load(b"FOO,1,1,f,NSE_F").unwrap();
    let mut above = store_with(vec![rule(1, b"FOO", 10000, Direction::Above)]);
    assert_eq!(evaluate_tick(&reg, &mut above, b"NSE_F", 10000, 1).len(), 1);
    let mut below = store_with(vec![rule(1, b"FOO", 10000, Direction::Below)]);
    assert_eq!(evaluate_tick(&reg, &mut below, b"NSE_F", 10000, 1).len(), 1);
}

#[test]
fn unknown_key_produces_nothing() {
    let reg = Registry::load(b"FOO,1,1,f,NSE_F").unwrap();
    let mut store = store_with(vec![rule(1, b"FOO", 1, Direction::Above)]);
    let events = evaluate_tick(&reg, &mut store, b"NSE_UNTRACKED", 10100, 50);
    assert_eq!(events.len(), 0);
    assert_eq!(store.list_active_rules(b"FOO").len(), 1);
}

#[test]
fn matching_rules_trigger_independently() {
    let reg = Registry::load(b"FOO,1,1,f,NSE_F").unwrap();
    let mut store = store_with(vec![
        rule(1, b"FOO", 10000, Direction::Above),
        rule(2, b"FOO", 9000, Direction::Above),
        rule(3, b"FOO", 20000, Direction::Above),
        rule(4, b"BAR", 1, Direction::Above),
    ]);
    let events = evaluate_tick(&reg, &mut store, b"NSE_F", 10100, 50);
    assert_eq!(events.len(), 2);
    assert_eq!(events[0].rule_id, 1);
    assert_eq!(events[1].rule_id, 2);
    assert_eq!(store.list_active_rules(b"FOO").len(), 1);
    assert_eq!(store.list_active_rules(b"BAR").len(), 1);
}

#[test]
fn mark_sent_is_conditional() {
    let mut store = store_with(vec![rule(9, b"FOO", 100, Direction::Above)]);
    assert_eq!(store.mark_sent(9, 77), MarkOutcome::Marked);
    assert_eq!(store.mark_sent(9, 99), MarkOutcome::AlreadySent);
    assert_eq!(store.mark_sent(8, 99), MarkOutcome::NotFound);
}

#[test]
fn add_rule_rejects_duplicate_id_and_zero_threshold() {
    let mut store = RuleStore::new();
    assert!(store.add_rule(rule(1, b"FOO", 100, Direction::Above)));
    assert!(!store.add_rule(rule(1, b"BAR", 200, Direction::Below)));
    assert!(!store.add_rule(rule(2, b"BAR", 0, Direction::Below)));
    assert_eq!(store.rule_count(), 1);
}
