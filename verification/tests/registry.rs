use feed_alerts::errors::FeedError;
use feed_alerts::registry::Registry;

fn reg_from(src: &[u8]) -> Registry {
    Registry::load(src).expect("well-formed source")
}

#[test]
fn lookup_returns_each_unique_row() {
    let reg = reg_from(b"Foo,1,10.50,FOO LTD,NSE_X\nBar,2,20.25,BAR LTD,NSE_Y\n");
    let a = reg.lookup(b"NSE_X").expect("known key");
    assert_eq!(a.display_symbol, b"Foo".to_vec());
    assert_eq!(a.count, b"1".to_vec());
    assert_eq!(a.price_value, b"10.50".to_vec());
    assert_eq!(a.secondary_name, b"FOO LTD".to_vec());
    let b = reg.lookup(b"NSE_Y").expect("known key");
    assert_eq!(b.display_symbol, b"Bar".to_vec());
}

#[test]
fn repeated_key_takes_last_row() {
    let reg = reg_from(b"Old,1,1,o,NSE_X\nNew,2,2,n,NSE_X");
    let hit = reg.lookup(b"NSE_X").expect("known key");
    assert_eq!(hit.display_symbol, b"New".to_vec());
    assert_eq!(hit.count, b"2".to_vec());
}

#[test]
fn unknown_key_is_absent() {
    let reg = reg_from(b"Foo,1,1,f,NSE_X");
    assert!(reg.lookup(b"NSE_Z").is_none());
}

#[test]
fn malformed_row_is_fatal() {
    assert!(matches!(Registry::load(b"Foo,1,10.50,FOO LTD\n"), Err(FeedError::Parse)));
    assert!(matches!(
        Registry::load(b"Foo,1,10.50,FOO LTD,NSE_X\nshort,row\n"),
        Err(FeedError::Parse)
    ));
    assert!(matches!(Registry::load(b"a,b,c,d,e,f\n"), Err(FeedError::Parse)));
}

#[test]
fn empty_source_loads_empty_registry() {
    let reg = reg_from(b"");
    assert_eq!(reg.row_count(), 0);
    assert_eq!(reg.all_keys().len(), 0);
}

#[test]
fn all_keys_collapses_duplicates() {
    let reg = reg_from(b"A,1,1,a,K1\nB,2,2,b,K2\nC,3,3,c,K1\n");
    let keys = reg.all_keys();
    assert_eq!(keys.len(), 2);
    assert!(keys.contains(&b"K1".to_vec()));
    assert!(keys.contains(&b"K2".to_vec()));
}
