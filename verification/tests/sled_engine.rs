use kvs::engine::{KvsEngine, Sled};
use kvs::KvError;

#[test]
fn sled_adapter_round_trips() {
    let mut engine = Sled::open("/tmp/kvs_sled_adapter_round_trips").expect("open sled");
    engine.set("alpha".to_string(), "one".to_string()).unwrap();
    engine.set("beta".to_string(), "two".to_string()).unwrap();
    assert_eq!(engine.get("alpha".to_string()).unwrap(), Some("one".to_string()));
    engine.set("alpha".to_string(), "uno".to_string()).unwrap();
    assert_eq!(engine.get("alpha".to_string()).unwrap(), Some("uno".to_string()));
    engine.remove("alpha".to_string()).unwrap();
    assert_eq!(engine.get("alpha".to_string()).unwrap(), None);
    match engine.remove("alpha".to_string()) {
        Err(KvError::KeyNotFound) => {}
        other => panic!("expected KeyNotFound, got {:?}", other),
    }
    assert_eq!(engine.get("beta".to_string()).unwrap(), Some("two".to_string()));
}

#[test]
fn sled_adapter_through_the_trait() {
    let mut engine = Sled::open("/tmp/kvs_sled_adapter_through_the_trait").expect("open sled");
    KvsEngine::set(&mut engine, "k".to_string(), "v".to_string()).unwrap();
    assert_eq!(KvsEngine::get(&mut engine, "k".to_string()).unwrap(), Some("v".to_string()));
    KvsEngine::remove(&mut engine, "k".to_string()).unwrap();
    assert_eq!(KvsEngine::get(&mut engine, "k".to_string()).unwrap(), None);
}
