use kvs::engine::{resolve_engine, EngineType};
use kvs::codec::{decode_command, encode_command, DecodeError};
use kvs::kv::{KvStore, Segment};
use kvs::kv_client::KvClient;
use kvs::kv_server::handle_request;
use kvs::message::{Request, Response};
use kvs::net::{decode_request, decode_response, encode_request, encode_response, frame_header, frame_length};
use kvs::paths::{get_sorted_gens, log_path, parse_gen_filename};
use kvs::{Command, KvError};

#[test]
fn command_codec_round_trips() {
    let cases = vec![
        Command::put("k".to_string(), "v".to_string()),
        Command::put("".to_string(), "".to_string()),
        Command::put("sch\u{00f6}n \u{1f600}".to_string(), "sn\u{00f6}\u{2603}".to_string()),
        Command::remove("key with spaces".to_string()),
    ];
    for cmd in cases {
        let bytes = encode_command(&cmd);
        let (back, used) = decode_command(&bytes, 0).expect("decode what encode wrote");
        assert_eq!(back, cmd);
        assert_eq!(used, bytes.len());
    }
}

#[test]
fn command_codec_is_deterministic() {
    let a = encode_command(&Command::put("a".to_string(), "b".to_string()));
    let b = encode_command(&Command::put("a".to_string(), "b".to_string()));
    assert_eq!(a, b);
}

#[test]
fn command_decoder_reports_truncation_and_garbage() {
    let bytes = encode_command(&Command::put("key".to_string(), "value".to_string()));
    match decode_command(&bytes[..bytes.len() - 1], 0) {
        Err(DecodeError::Truncated) => {}
        other => panic!("expected truncation, got {:?}", other),
    }
    match decode_command(&[9u8, 0, 0, 0, 0, 0, 0, 0, 0, 0], 0) {
        Err(DecodeError::Malformed) => {}
        other => panic!("expected malformed, got {:?}", other),
    }
}

#[test]
fn request_codec_round_trips() {
    let cases = vec![
        Request::Get { key: "k".to_string() },
        Request::Put { key: "k\u{00e9}".to_string(), value: "v".to_string() },
        Request::Remove { key: "".to_string() },
    ];
    for req in cases {
        let bytes = encode_request(&req);
        assert_eq!(decode_request(&bytes), Some(req));
    }
    assert_eq!(decode_request(&[7u8]), None);
    assert_eq!(decode_request(&[]), None);
}

#[test]
fn response_codec_round_trips() {
    let cases = vec![
        Response::OkValue { value: Some("v".to_string()) },
        Response::OkValue { value: None },
        Response::OkNoContent,
        Response::ErrorKeyNotFound,
        Response::ErrorUnknown { message: "boom".to_string() },
    ];
    for resp in cases {
        let bytes = encode_response(&resp);
        assert_eq!(decode_response(&bytes), Some(resp));
    }
}

#[test]
fn frame_header_round_trips() {
    for len in [0u64, 1, 255, 256, 65535, 1 << 40, u64::MAX] {
        let h = frame_header(len);
        assert_eq!(h.len(), 8);
        assert_eq!(frame_length(&h), len);
    }
}

#[test]
fn client_decides_get_outcomes() {
    assert_eq!(
        KvClient::get(Response::OkValue { value: Some("v".to_string()) }).unwrap(),
        Some("v".to_string())
    );
    assert_eq!(KvClient::get(Response::OkValue { value: None }).unwrap(), None);
    assert!(matches!(KvClient::get(Response::ErrorKeyNotFound), Err(KvError::KeyNotFound)));
    assert!(matches!(KvClient::get(Response::OkNoContent), Err(KvError::Unknown)));
}

#[test]
fn client_decides_set_and_remove_outcomes() {
    assert!(KvClient::set(Response::OkNoContent).is_ok());
    assert!(matches!(KvClient::set(Response::ErrorKeyNotFound), Err(KvError::Unknown)));
    assert!(KvClient::remove(Response::OkNoContent).is_ok());
    assert!(matches!(KvClient::remove(Response::ErrorKeyNotFound), Err(KvError::KeyNotFound)));
    assert!(matches!(
        KvClient::remove(Response::ErrorUnknown { message: "x".to_string() }),
        Err(KvError::Unknown)
    ));
}

#[test]
fn server_answers_each_request_once() {
    let mut store = KvStore::open(Vec::new()).expect("open");
    let _ = store.take_effects();
    let resp = handle_request(&mut store, Request::Put { key: "k".to_string(), value: "v".to_string() });
    assert_eq!(resp, Response::OkNoContent);
    let resp = handle_request(&mut store, Request::Get { key: "k".to_string() });
    assert_eq!(resp, Response::OkValue { value: Some("v".to_string()) });
    let resp = handle_request(&mut store, Request::Remove { key: "k".to_string() });
    assert_eq!(resp, Response::OkNoContent);
    let resp = handle_request(&mut store, Request::Remove { key: "k".to_string() });
    assert_eq!(resp, Response::ErrorKeyNotFound);
    let resp = handle_request(&mut store, Request::Get { key: "k".to_string() });
    assert_eq!(resp, Response::OkValue { value: None });
}

#[test]
fn engine_choice_refuses_a_mismatch() {
    assert!(matches!(
        resolve_engine(EngineType::Sled, Some(EngineType::KvStore)),
        Err(KvError::EngineMismatch)
    ));
    assert!(matches!(
        resolve_engine(EngineType::KvStore, Some(EngineType::Sled)),
        Err(KvError::EngineMismatch)
    ));
    assert!(matches!(resolve_engine(EngineType::KvStore, Some(EngineType::KvStore)), Ok(EngineType::KvStore)));
    assert!(matches!(resolve_engine(EngineType::Auto, Some(EngineType::Sled)), Ok(EngineType::Sled)));
    assert!(matches!(resolve_engine(EngineType::Auto, None), Ok(EngineType::KvStore)));
}

#[test]
fn engine_marker_text_round_trips() {
    for e in [EngineType::Auto, EngineType::KvStore, EngineType::Sled] {
        assert_eq!(EngineType::from_text(e.as_text()).unwrap(), e);
    }
    assert!(EngineType::from_text("postgres").is_err());
    assert_eq!(EngineType::from_text("kvs").unwrap(), EngineType::KvStore);
}

#[test]
fn segment_names_round_trip() {
    assert_eq!(log_path(0), "0.log");
    assert_eq!(log_path(7), "7.log");
    assert_eq!(log_path(1234567890123), "1234567890123.log");
    for g in [0u64, 1, 9, 10, 99, 100, u64::MAX] {
        assert_eq!(parse_gen_filename(&log_path(g)), Some(g));
    }
    assert_eq!(parse_gen_filename("01.log"), None);
    assert_eq!(parse_gen_filename("a.log"), None);
    assert_eq!(parse_gen_filename("7.txt"), None);
    assert_eq!(parse_gen_filename("engine"), None);
    assert_eq!(parse_gen_filename("18446744073709551616.log"), None);
}

#[test]
fn directory_listing_sorts_numerically() {
    let names = vec![
        "10.log".to_string(),
        "2.log".to_string(),
        "engine".to_string(),
        "1.log".to_string(),
        "notes.txt".to_string(),
        "2.log".to_string(),
    ];
    let gens = get_sorted_gens(&names);
    assert_eq!(gens, vec![1, 2, 10]);
}

#[test]
fn open_requires_work_through_sorted_gens() {
    let segments: Vec<Segment> = get_sorted_gens(&vec!["3.log".to_string(), "1.log".to_string()])
        .into_iter()
        .map(|gen| Segment { gen, data: Vec::new() })
        .collect();
    let store = KvStore::open(segments).expect("open over enumerated empty segments");
    assert_eq!(store.get("nothing".to_string()).unwrap(), None);
}
