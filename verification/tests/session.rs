use feed_alerts::errors::FeedError;
use feed_alerts::registry::Registry;
use feed_alerts::rules::AlertRule;
use feed_alerts::rules::Direction;
use feed_alerts::rules::RuleStore;
use feed_alerts::session::handle_auth_response;
use feed_alerts::session::Session;
use feed_alerts::session::SessionState;

fn frame_ltpc(key: &[u8], price: u64, close_price: u64) -> Vec<u8> {
    let mut out = Vec::new();
    out.push(1);
    out.push(0);
    out.push(key.len() as u8);
    out.push(0);
    out.extend_from_slice(key);
    out.push(0);
    for n in [price, close_price] {
        for k in 0..8 {
            out.push(((n >> (8 * k)) & 0xff) as u8);
        }
    }
    out
}

#[test]
fn auth_accepts_documented_shape() {
    let body = b"{\"data\":{\"authorizedRedirectUri\":\"wss://example\"}}";
    let uri = handle_auth_response(200, body).expect("2xx with well-formed body");
    assert_eq!(uri, b"wss://example".to_vec());
}

#[test]
fn auth_accepts_whitespace_and_unknown_members() {
    let spaced = b"{\"data\": {\"authorizedRedirectUri\":\"wss://x\"}}";
    assert_eq!(handle_auth_response(200, spaced).unwrap(), b"wss://x".to_vec());
    let airy = b" {\n  \"data\" : {\r\n    \"authorizedRedirectUri\" : \"wss://x\"\n  }\n} ";
    assert_eq!(handle_auth_response(200, airy).unwrap(), b"wss://x".to_vec());
    let extras = b"{\"extra\":1,\"data\":{\"other\":null,\"authorizedRedirectUri\":\"wss://x\",\"more\":[1,true,{\"deep\":[]}]},\"tail\":\"z\"}";
    assert_eq!(handle_auth_response(200, extras).unwrap(), b"wss://x".to_vec());
}

#[test]
fn auth_takes_uri_from_data_not_a_decoy() {
    let decoy = b"{\"meta\":{\"authorizedRedirectUri\":\"wrong\"},\"data\":{\"authorizedRedirectUri\":\"wss://x\"}}";
    assert_eq!(handle_auth_response(200, decoy).unwrap(), b"wss://x".to_vec());
}

#[test]
fn auth_rejects_bodies_off_the_shape() {
    // `data` must be an object
    assert!(matches!(
        handle_auth_response(200, b"{\"data\":\"wss://x\"}"),
        Err(FeedError::Auth)
    ));
    // no redirect URI inside `data`
    assert!(matches!(handle_auth_response(200, b"{\"data\":{}}"), Err(FeedError::Auth)));
    // trailing content after the object
    assert!(matches!(
        handle_auth_response(200, b"{\"data\":{\"authorizedRedirectUri\":\"wss://x\"}}x"),
        Err(FeedError::Auth)
    ));
    // string escapes are out of the supported subset
    assert!(matches!(
        handle_auth_response(200, b"{\"data\":{\"authorizedRedirectUri\":\"w\\\"s\"}}"),
        Err(FeedError::Auth)
    ));
}

#[test]
fn auth_rejects_non_2xx_status() {
    let body = b"{\"data\":{\"authorizedRedirectUri\":\"wss://example\"}}";
    assert!(matches!(handle_auth_response(401, body), Err(FeedError::Auth)));
    assert!(matches!(handle_auth_response(301, body), Err(FeedError::Auth)));
    assert!(matches!(handle_auth_response(199, body), Err(FeedError::Auth)));
}

#[test]
fn auth_rejects_malformed_body() {
    assert!(matches!(handle_auth_response(200, b"{}"), Err(FeedError::Auth)));
    assert!(matches!(
        handle_auth_response(200, b"{\"data\":{\"somethingElse\":\"wss://example\"}}"),
        Err(FeedError::Auth)
    ));
    assert!(matches!(
        handle_auth_response(200, b"{\"data\":{\"authorizedRedirectUri\":\"wss://example\"}"),
        Err(FeedError::Auth)
    ));
}

#[test]
fn subscribe_payload_lists_registry_keys_in_ltpc_mode() {
    let reg = Registry::load(b"Foo,1,1,f,NSE_X\nBar,2,2,b,NSE_Y").unwrap();
    let mut session = Session::new(b"g-1".to_vec());
    let body = b"{\"data\":{\"authorizedRedirectUri\":\"wss://example\"}}";
    session.on_auth_response(200, body).unwrap();
    let (keys, payload) = session.on_connected(&reg).unwrap();
    assert_eq!(keys.len(), 2);
    let expected = b"{\"guid\":\"g-1\",\"method\":\"sub\",\"data\":{\"mode\":\"ltpc\",\"instrumentKeys\":[\"NSE_X\",\"NSE_Y\"]}}";
    assert_eq!(payload, expected.to_vec());
}

#[test]
fn subscribe_payload_with_empty_registry_has_empty_key_list() {
    let reg = Registry::load(b"").unwrap();
    let mut session = Session::new(b"g".to_vec());
    let body = b"{\"data\":{\"authorizedRedirectUri\":\"wss://example\"}}";
    session.on_auth_response(200, body).unwrap();
    let (keys, payload) = session.on_connected(&reg).unwrap();
    assert_eq!(keys.len(), 0);
    let expected =
        b"{\"guid\":\"g\",\"method\":\"sub\",\"data\":{\"mode\":\"ltpc\",\"instrumentKeys\":[]}}";
    assert_eq!(payload, expected.to_vec());
}

#[test]
fn subscribe_rejects_key_json_cannot_carry() {
    let reg = Registry::load(b"Foo,1,1,f,NSE\"X").unwrap();
    let mut session = Session::new(b"g".to_vec());
    let body = b"{\"data\":{\"authorizedRedirectUri\":\"wss://example\"}}";
    session.on_auth_response(200, body).unwrap();
    assert!(matches!(session.on_connected(&reg), Err(FeedError::Config)));
    assert_eq!(session.state(), SessionState::Failed);
}

#[test]
fn undecodable_frame_is_fatal() {
    let reg = Registry::load(b"Foo,1,1,f,NSE_X").unwrap();
    let mut store = RuleStore::new();
    let mut session = Session::new(b"g".to_vec());
    let body = b"{\"data\":{\"authorizedRedirectUri\":\"wss://example\"}}";
    session.on_auth_response(200, body).unwrap();
    session.on_connected(&reg).unwrap();
    let outcome = session.on_frame(&reg, &mut store, b"\x01", 5);
    assert!(matches!(outcome, Err(FeedError::Protocol)));
    assert_eq!(session.state(), SessionState::Failed);
}

#[test]
fn read_error_is_fatal() {
    let reg = Registry::load(b"Foo,1,1,f,NSE_X").unwrap();
    let mut session = Session::new(b"g".to_vec());
    let body = b"{\"data\":{\"authorizedRedirectUri\":\"wss://example\"}}";
    session.on_auth_response(200, body).unwrap();
    session.on_connected(&reg).unwrap();
    assert!(matches!(session.on_read_error(), FeedError::Transport));
    assert_eq!(session.state(), SessionState::Failed);
}

#[test]
fn connect_failure_is_fatal() {
    let mut session = Session::new(b"g".to_vec());
    let body = b"{\"data\":{\"authorizedRedirectUri\":\"wss://example\"}}";
    session.on_auth_response(200, body).unwrap();
    assert!(matches!(session.on_connect_failed(), FeedError::Connection));
    assert_eq!(session.state(), SessionState::Failed);
}

#[test]
fn full_session_alerts_exactly_once() {
    // auth, connect, subscribe, one qualifying tick, one repeat tick
    let reg = Registry::load(b"Foo,1,1,f,NSE_X").unwrap();
    let mut store = RuleStore::new();
    assert!(store.add_rule(AlertRule {
        id: 1,
        symbol: b"Foo".to_vec(),
        threshold: 500,
        direction: Direction::Above,
        created_at: 1,
        sent_at: None,
    }));
    let mut session = Session::new(b"guid-7".to_vec());
    assert_eq!(session.state(), SessionState::AwaitingAuth);

    let body = b"{\"data\":{\"authorizedRedirectUri\":\"wss://example\"}}";
    let uri = session.on_auth_response(200, body).unwrap();
    assert_eq!(uri, b"wss://example".to_vec());
    assert_eq!(session.state(), SessionState::Connecting);

    let (keys, _payload) = session.on_connected(&reg).unwrap();
    assert_eq!(keys, vec![b"NSE_X".to_vec()]);
    assert_eq!(session.state(), SessionState::Streaming);

    let frame = frame_ltpc(b"NSE_X", 1000, 900);
    let events = session.on_frame(&reg, &mut store, &frame, 42).unwrap();
    assert_eq!(events.len(), 1);
    assert_eq!(events[0].symbol, b"Foo".to_vec());
    assert_eq!(events[0].instrument_key, b"NSE_X".to_vec());
    assert_eq!(events[0].price, 1000);
    assert_eq!(events[0].rule_id, 1);
    assert_eq!(store.list_active_rules(b"Foo").len(), 0);

    let again = session.on_frame(&reg, &mut store, &frame, 43).unwrap();
    assert_eq!(again.len(), 0);
    assert_eq!(session.state(), SessionState::Streaming);

    session.on_closed();
    assert_eq!(session.state(), SessionState::Closed);
}
