//! Wire-protocol tests: byte-exact framing, round trips, and the
//! server's per-request step.

use kvs::{
    decode_request_at, decode_response_at, encode_get_response, encode_remove_response,
    encode_request, encode_set_response, handle_request, interpret_ack_response,
    interpret_get_response, scan_request, scan_response, GetResponse, KvStore, KvsError,
    RemoveResponse, Request, RespValue, ScanOutcome, SetResponse,
};

#[test]
fn request_bytes_are_canonical_json() {
    assert_eq!(
        encode_request(&Request::Get { key: "k".to_string() }),
        b"{\"Get\":{\"key\":\"k\"}}".to_vec()
    );
    assert_eq!(
        encode_request(&Request::SetReq { key: "k".to_string(), value: "v".to_string() }),
        b"{\"Set\":{\"key\":\"k\",\"value\":\"v\"}}".to_vec()
    );
    assert_eq!(
        encode_request(&Request::Remove { key: "k".to_string() }),
        b"{\"Remove\":{\"key\":\"k\"}}".to_vec()
    );
}

#[test]
fn response_bytes_are_canonical_json() {
    assert_eq!(
        encode_get_response(&GetResponse::Done(Some("v".to_string()))),
        b"{\"Ok\":\"v\"}".to_vec()
    );
    assert_eq!(encode_get_response(&GetResponse::Done(None)), b"{\"Ok\":null}".to_vec());
    assert_eq!(
        encode_get_response(&GetResponse::Failed("oops".to_string())),
        b"{\"Err\":\"oops\"}".to_vec()
    );
    assert_eq!(encode_set_response(&SetResponse::Done), b"{\"Ok\":null}".to_vec());
    assert_eq!(encode_remove_response(&RemoveResponse::Done), b"{\"Ok\":null}".to_vec());
    assert_eq!(
        encode_remove_response(&RemoveResponse::Failed("Key not found".to_string())),
        b"{\"Err\":\"Key not found\"}".to_vec()
    );
}

#[test]
fn requests_round_trip() {
    let reqs = vec![
        Request::Get { key: "key with \" and \\".to_string() },
        Request::SetReq { key: "k".to_string(), value: "line\nbreak".to_string() },
        Request::Remove { key: String::new() },
    ];
    for req in reqs {
        let bytes = encode_request(&req);
        let (back, end) = decode_request_at(&bytes, 0).unwrap();
        assert_eq!(back, req);
        assert_eq!(end, bytes.len());
    }
}

#[test]
fn responses_round_trip() {
    let cases: Vec<(Vec<u8>, RespValue)> = vec![
        (
            encode_get_response(&GetResponse::Done(Some("v\u{0}x".to_string()))),
            RespValue::Found("v\u{0}x".to_string()),
        ),
        (encode_set_response(&SetResponse::Done), RespValue::Nothing),
        (
            encode_get_response(&GetResponse::Failed("bad".to_string())),
            RespValue::Failed("bad".to_string()),
        ),
    ];
    for (bytes, expected) in cases {
        let (got, end) = decode_response_at(&bytes, 0).unwrap();
        assert_eq!(got, expected);
        assert_eq!(end, bytes.len());
    }
}

#[test]
fn decode_request_rejects_malformed_input() {
    let bad: Vec<Vec<u8>> = vec![
        b"".to_vec(),
        b"{\"Rm\":{\"key\":\"a\"}}".to_vec(),
        b"{\"Get\":{\"key\":\"a\"}".to_vec(),
        b"{\"Set\":{\"key\":\"a\"}}".to_vec(),
    ];
    for input in bad {
        assert!(matches!(decode_request_at(&input, 0), Err(KvsError::Serde(_))));
    }
}

#[test]
fn interpret_responses_for_the_client() {
    assert_eq!(
        interpret_get_response(RespValue::Found("v".to_string())),
        Ok(Some("v".to_string()))
    );
    assert_eq!(interpret_get_response(RespValue::Nothing), Ok(None));
    assert_eq!(
        interpret_get_response(RespValue::Failed("err".to_string())),
        Err(KvsError::StringError("err".to_string()))
    );
    assert_eq!(interpret_ack_response(RespValue::Nothing), Ok(()));
    assert_eq!(
        interpret_ack_response(RespValue::Failed("err".to_string())),
        Err(KvsError::StringError("err".to_string()))
    );
    assert!(matches!(
        interpret_ack_response(RespValue::Found("v".to_string())),
        Err(KvsError::Serde(_))
    ));
}

#[test]
fn handle_request_serves_a_session() {
    let mut store = KvStore::open(Vec::new()).unwrap();
    let set = handle_request(
        &mut store,
        Request::SetReq { key: "a".to_string(), value: "1".to_string() },
    );
    assert_eq!(set, b"{\"Ok\":null}".to_vec());
    let hit = handle_request(&mut store, Request::Get { key: "a".to_string() });
    assert_eq!(hit, b"{\"Ok\":\"1\"}".to_vec());
    let miss = handle_request(&mut store, Request::Get { key: "b".to_string() });
    assert_eq!(miss, b"{\"Ok\":null}".to_vec());
    let removed = handle_request(&mut store, Request::Remove { key: "a".to_string() });
    assert_eq!(removed, b"{\"Ok\":null}".to_vec());
    let missing = handle_request(&mut store, Request::Remove { key: "a".to_string() });
    assert_eq!(missing, b"{\"Err\":\"Key not found\"}".to_vec());
    let gone = handle_request(&mut store, Request::Get { key: "a".to_string() });
    assert_eq!(gone, b"{\"Ok\":null}".to_vec());
}

#[test]
fn eight_clients_on_disjoint_ranges_round_trip() {
    // the wire-level analogue of several clients sharing one server:
    // requests are encoded, decoded server-side, applied, and the
    // responses interpreted client-side; each client owns its range
    let mut store = KvStore::open(Vec::new()).unwrap();
    for client in 0..8 {
        for i in 0..100 {
            let key = format!("client_{}_{}", client, i);
            let value = format!("value_{}_{}", client, i);
            let wire = encode_request(&Request::SetReq { key, value });
            let (req, _) = decode_request_at(&wire, 0).unwrap();
            let resp_bytes = handle_request(&mut store, req);
            let (resp, _) = decode_response_at(&resp_bytes, 0).unwrap();
            assert_eq!(interpret_ack_response(resp), Ok(()));
        }
    }
    for client in 0..8 {
        for i in 0..100 {
            let key = format!("client_{}_{}", client, i);
            let wire = encode_request(&Request::Get { key });
            let (req, _) = decode_request_at(&wire, 0).unwrap();
            let resp_bytes = handle_request(&mut store, req);
            let (resp, _) = decode_response_at(&resp_bytes, 0).unwrap();
            assert_eq!(
                interpret_get_response(resp),
                Ok(Some(format!("value_{}_{}", client, i)))
            );
        }
    }
}

#[test]
fn scanners_tell_short_reads_from_garbage() {
    let whole = encode_request(&Request::SetReq { key: "k".to_string(), value: "v".to_string() });
    assert_eq!(scan_request(&whole), ScanOutcome::Complete(whole.len()));
    // every proper prefix of a request is a short read, never garbage
    for cut in 0..whole.len() {
        assert_eq!(scan_request(&whole[..cut].to_vec()), ScanOutcome::NeedMore, "cut {}", cut);
    }
    assert_eq!(scan_request(&b"{\"Put\":{".to_vec()), ScanOutcome::Malformed);
    assert_eq!(scan_request(&b"{\"Get\":{\"key\":\"a\\q".to_vec()), ScanOutcome::Malformed);
    // structurally complete but not UTF-8: garbage, not a short read
    assert_eq!(
        scan_request(&b"{\"Get\":{\"key\":\"\xff\xfe\"}}".to_vec()),
        ScanOutcome::Malformed
    );
    let resp = encode_get_response(&GetResponse::Done(Some("value".to_string())));
    assert_eq!(scan_response(&resp), ScanOutcome::Complete(resp.len()));
    for cut in 0..resp.len() {
        assert_eq!(scan_response(&resp[..cut].to_vec()), ScanOutcome::NeedMore, "cut {}", cut);
    }
    let nul = encode_set_response(&SetResponse::Done);
    for cut in 0..nul.len() {
        assert_eq!(scan_response(&nul[..cut].to_vec()), ScanOutcome::NeedMore, "cut {}", cut);
    }
    assert_eq!(scan_response(&nul), ScanOutcome::Complete(nul.len()));
    assert_eq!(scan_response(&b"{\"No\":1}".to_vec()), ScanOutcome::Malformed);
}
