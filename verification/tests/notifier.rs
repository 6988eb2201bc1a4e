use feed_alerts::errors::FeedError;
use feed_alerts::notifier::deliver;
use feed_alerts::notifier::format_alert;
use feed_alerts::notifier::Delivery;
use feed_alerts::rules::AlertEvent;
use feed_alerts::rules::AlertRule;
use feed_alerts::rules::Direction;
use feed_alerts::rules::RuleStore;

fn event(price: u64) -> AlertEvent {
    AlertEvent {
        rule_id: 7,
        instrument_key: b"NSE_X".to_vec(),
        symbol: b"Foo".to_vec(),
        price,
        triggered_at: 99,
    }
}

#[test]
fn alert_line_renders_fixed_point_price() {
    let line = format_alert(&event(10150));
    assert_eq!(line, b"ALERT Foo key=NSE_X price=101.50 rule=7 at=99".to_vec());
}

#[test]
fn delivery_emits_once_then_suppresses() {
    let mut store = RuleStore::new();
    assert!(store.add_rule(AlertRule {
        id: 7,
        symbol: b"Foo".to_vec(),
        threshold: 100,
        direction: Direction::Above,
        created_at: 1,
        sent_at: None,
    }));
    let ev = event(10150);
    match deliver(&mut store, &ev).unwrap() {
        Delivery::Emitted(line) => {
            assert_eq!(line, b"ALERT Foo key=NSE_X price=101.50 rule=7 at=99".to_vec());
        }
        Delivery::Suppressed => panic!("first delivery must emit"),
    }
    assert!(matches!(deliver(&mut store, &ev), Ok(Delivery::Suppressed)));
}

#[test]
fn delivery_surfaces_missing_rule() {
    let mut store = RuleStore::new();
    assert!(matches!(deliver(&mut store, &event(1)), Err(FeedError::RuleStore)));
}

#[test]
fn alert_line_pads_small_fractions() {
    assert_eq!(
        format_alert(&event(5)),
        b"ALERT Foo key=NSE_X price=0.05 rule=7 at=99".to_vec()
    );
    assert_eq!(
        format_alert(&event(0)),
        b"ALERT Foo key=NSE_X price=0.00 rule=7 at=99".to_vec()
    );
    assert_eq!(
        format_alert(&event(120)),
        b"ALERT Foo key=NSE_X price=1.20 rule=7 at=99".to_vec()
    );
}
