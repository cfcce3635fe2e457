use connlog::{
    decode_record, parse_body_at, parse_byte_list, parse_digits, parse_quoted, encode_line, push_byte_list, push_decimal, push_quoted, ConnLog, ConnLogBody,
    ConnLogMsg, RecordError, Timestamp, END_FORMATTABLE_NANOS, FIRST_FORMATTABLE_NANOS,
};
use std::sync::Arc;

fn text(b: &[u8]) -> String {
    String::from_utf8(b.to_vec()).unwrap()
}

fn now() -> Timestamp {
    Timestamp::from_unix_nanos(time::OffsetDateTime::now_utc().unix_timestamp_nanos())
}

fn runtime() -> tokio::runtime::Runtime {
    tokio::runtime::Builder::new_current_thread().build().unwrap()
}

fn root_handle(rt: &tokio::runtime::Runtime, name: &str) -> ConnLog {
    let path = format!("/tmp/connlog_test_{}.log", name);
    let file = rt.block_on(tokio::fs::File::create(path)).unwrap();
    ConnLog::new(0, file)
}

fn lines(b: &[u8]) -> Vec<Vec<u8>> {
    let mut out: Vec<Vec<u8>> = b.split(|c| *c == b'\n').map(|l| l.to_vec()).collect();
    assert_eq!(out.pop(), Some(Vec::new()));
    out
}

#[test]
fn decimal_text() {
    let mut out = Vec::new();
    push_decimal(&mut out, 0);
    assert_eq!(text(&out), "0");
    out.clear();
    push_decimal(&mut out, 4294967295);
    assert_eq!(text(&out), "4294967295");
    out.clear();
    push_decimal(&mut out, 1200);
    assert_eq!(text(&out), "1200");
}

#[test]
fn quoting_agrees_with_serde_json() {
    let cases = ["", "10.0.0.1", "a\"b", "back\\slash", "tab\tnl\ncr\r", "\u{8}\u{c}\u{1}\u{1f}", "ü日本", "\u{7f}/"];
    for s in cases {
        let mut out = Vec::new();
        push_quoted(&mut out, s.as_bytes());
        assert_eq!(text(&out), serde_json::to_string(s).unwrap());
    }
}

#[test]
fn byte_list_agrees_with_serde_json() {
    let cases: [&[u8]; 4] = [&[], &[0], &[1, 2, 255], &[10, 100, 99, 9]];
    for b in cases {
        let mut out = Vec::new();
        push_byte_list(&mut out, b);
        assert_eq!(text(&out), serde_json::to_string(b).unwrap());
    }
}

#[test]
fn event_json_forms() {
    assert_eq!(text(&ConnLogBody::ServerStartup.to_json()), "\"ServerStartup\"");
    assert_eq!(text(&ConnLogBody::ServerShutdown.to_json()), "\"ServerShutdown\"");
    assert_eq!(text(&ConnLogBody::Close.to_json()), "\"Close\"");
    assert_eq!(
        text(&ConnLogBody::Connect { ipaddr: "1.2.3.4".to_string() }.to_json()),
        "{\"Connect\":{\"ipaddr\":\"1.2.3.4\"}}"
    );
    assert_eq!(
        text(&ConnLogBody::ServerToClientMsg(vec![7, 8]).to_json()),
        "{\"ServerToClientMsg\":[7,8]}"
    );
    assert_eq!(
        text(&ConnLogBody::ClientToServerMsg(vec![]).to_json()),
        "{\"ClientToServerMsg\":[]}"
    );
}

#[test]
fn every_event_round_trips() {
    let events = vec![
        ConnLogBody::ServerStartup,
        ConnLogBody::ServerShutdown,
        ConnLogBody::Close,
        ConnLogBody::Connect { ipaddr: "10.0.0.1".to_string() },
        ConnLogBody::Connect { ipaddr: String::new() },
        ConnLogBody::Connect { ipaddr: "[::1]:80 \"q\" \\ \n\u{1} ü".to_string() },
        ConnLogBody::ServerToClientMsg(vec![]),
        ConnLogBody::ServerToClientMsg((0..=255).collect()),
        ConnLogBody::ClientToServerMsg(vec![1, 2, 255]),
    ];
    for e in events {
        let json = e.to_json();
        assert_eq!(ConnLogBody::from_json(&json), Some(e));
    }
}

#[test]
fn other_texts_are_refused() {
    let bad = [
        "",
        "\"close\"",
        " \"Close\"",
        "\"Close\" ",
        "{\"ServerToClientMsg\":[01]}",
        "{\"ServerToClientMsg\":[256]}",
        "{\"ServerToClientMsg\":[1,2}",
        "{\"ServerToClientMsg\": [1]}",
        "{\"Connect\":{\"ipaddr\":\"a\\u001F\"}}",
        "{\"Connect\":{\"ipaddr\":\"\\/\"}}",
        "{\"Connect\":{\"ipaddr\":\"a\"}",
    ];
    for s in bad {
        assert_eq!(ConnLogBody::from_json(s.as_bytes()), None, "{}", s);
    }
    let invalid_utf8 = b"{\"Connect\":{\"ipaddr\":\"\xff\"}}";
    assert_eq!(ConnLogBody::from_json(invalid_utf8), None);
}

#[test]
fn non_ascii_address_is_read_back() {
    let json = "{\"Connect\":{\"ipaddr\":\"f\u{fc}r\"}}";
    assert_eq!(
        ConnLogBody::from_json(json.as_bytes()),
        Some(ConnLogBody::Connect { ipaddr: "für".to_string() })
    );
}

#[test]
fn timestamps_in_rfc3339() {
    assert_eq!(Timestamp::from_unix_nanos(0).to_rfc3339().unwrap(), "1970-01-01T00:00:00Z");
    assert_eq!(
        Timestamp::from_unix_nanos(1_500_000_000).to_rfc3339().unwrap(),
        "1970-01-01T00:00:01.5Z"
    );
    assert_eq!(
        Timestamp::from_unix_nanos(FIRST_FORMATTABLE_NANOS).to_rfc3339().unwrap(),
        "0000-01-01T00:00:00Z"
    );
    assert_eq!(
        Timestamp::from_unix_nanos(END_FORMATTABLE_NANOS - 1).to_rfc3339().unwrap(),
        "9999-12-31T23:59:59.999999999Z"
    );
    assert_eq!(Timestamp::from_unix_nanos(FIRST_FORMATTABLE_NANOS - 1).to_rfc3339(), None);
    assert_eq!(Timestamp::from_unix_nanos(END_FORMATTABLE_NANOS).to_rfc3339(), None);
}

#[test]
fn record_line_exact() {
    let msg = ConnLogMsg::new(42, ConnLogBody::Close, Timestamp::from_unix_nanos(1_000_000_001));
    let line = msg.to_line().unwrap();
    assert_eq!(
        text(&line),
        "{\"conn_id\":42,\"op\":\"Close\",\"ts\":\"1970-01-01T00:00:01.000000001Z\"}\n"
    );
    assert_eq!(line, encode_line(42, &ConnLogBody::Close, "1970-01-01T00:00:01.000000001Z"));
}

#[test]
fn record_out_of_range_is_an_error() {
    let msg = ConnLogMsg::new(1, ConnLogBody::Close, Timestamp::from_unix_nanos(END_FORMATTABLE_NANOS));
    assert_eq!(msg.to_line(), Err(RecordError::TimestampOutOfRange));
    let mut out = b"kept".to_vec();
    assert_eq!(msg.push_to(&mut out), Err(RecordError::TimestampOutOfRange));
    assert_eq!(out, b"kept".to_vec());
}

#[test]
fn record_decodes_back() {
    let line = encode_line(4294967295, &ConnLogBody::ServerToClientMsg(vec![0, 10, 34]), "ts \"x\"");
    let l = decode_record(&line[..line.len() - 1]).unwrap();
    assert_eq!(l.conn_id, 4294967295);
    assert_eq!(l.op, ConnLogBody::ServerToClientMsg(vec![0, 10, 34]));
    assert_eq!(l.ts, "ts \"x\"");
    assert_eq!(decode_record(&line), None);
    assert_eq!(decode_record(b"{\"conn_id\":01,\"op\":\"Close\",\"ts\":\"t\"}"), None);
    assert_eq!(decode_record(b"{\"conn_id\":4294967296,\"op\":\"Close\",\"ts\":\"t\"}"), None);
    assert!(decode_record(b"{\"conn_id\":1,\"op\":\"Close\",\"ts\":\"t\"}").is_some());
}

#[test]
fn disabled_handle_writes_nothing() {
    let log = ConnLog::default();
    assert!(!log.is_enabled());
    assert!(log.sink().is_none());
    let mut out = Vec::new();
    assert_eq!(log.append_to(&mut out, ConnLogBody::ServerStartup, now()), Ok(()));
    let far = Timestamp::from_unix_nanos(END_FORMATTABLE_NANOS);
    assert_eq!(log.append_to(&mut out, ConnLogBody::Close, far), Ok(()));
    assert!(out.is_empty());
    assert!(log.record(ConnLogBody::Close, far).is_none());
    assert!(!log.clone_with_conn_id(5).is_enabled());
}

#[test]
fn scenario_root_handle_server_startup() {
    let rt = runtime();
    let log = root_handle(&rt, "startup");
    assert_eq!(log.conn_id(), 0);
    let mut out = Vec::new();
    log.append_to(&mut out, ConnLogBody::ServerStartup, now()).unwrap();
    let ls = lines(&out);
    assert_eq!(ls.len(), 1);
    let v: serde_json::Value = serde_json::from_slice(&ls[0]).unwrap();
    assert_eq!(v["conn_id"], 0);
    assert_eq!(v["op"], "ServerStartup");
    let ts = v["ts"].as_str().unwrap();
    assert!(time::OffsetDateTime::parse(ts, &time::format_description::well_known::Rfc3339).is_ok());
}

#[test]
fn scenario_two_connections_concurrently() {
    let rt = runtime();
    let root = root_handle(&rt, "two");
    let h1 = root.clone_with_conn_id(1);
    let h2 = root.clone_with_conn_id(2);
    assert!(Arc::ptr_eq(&h1.sink().unwrap(), &h2.sink().unwrap()));
    let shared = Arc::new(tokio::sync::Mutex::new(Vec::new()));
    let (s1, s2) = (shared.clone(), shared.clone());
    rt.block_on(async move {
        let t1 = tokio::spawn(async move {
            let mut out = s1.lock().await;
            h1.append_to(&mut *out, ConnLogBody::Connect { ipaddr: "10.0.0.1".to_string() }, now())
        });
        let t2 = tokio::spawn(async move {
            let mut out = s2.lock().await;
            h2.append_to(&mut *out, ConnLogBody::Connect { ipaddr: "10.0.0.2".to_string() }, now())
        });
        t1.await.unwrap().unwrap();
        t2.await.unwrap().unwrap();
    });
    let out = rt.block_on(shared.lock()).clone();
    let mut seen: Vec<(u32, String)> = lines(&out)
        .iter()
        .map(|l| {
            let r = decode_record(l).unwrap();
            let v: serde_json::Value = serde_json::from_slice(l).unwrap();
            assert_eq!(v["conn_id"], r.conn_id);
            match r.op {
                ConnLogBody::Connect { ipaddr } => (r.conn_id, ipaddr),
                other => panic!("unexpected {:?}", other),
            }
        })
        .collect();
    seen.sort();
    assert_eq!(seen, vec![(1, "10.0.0.1".to_string()), (2, "10.0.0.2".to_string())]);
}

#[test]
fn scenario_client_payload_bytes() {
    let rt = runtime();
    let log = root_handle(&rt, "payload");
    let mut out = Vec::new();
    log.append_to(&mut out, ConnLogBody::ClientToServerMsg(vec![0x01, 0x02, 0xFF]), now()).unwrap();
    let ls = lines(&out);
    assert_eq!(ls.len(), 1);
    let r = decode_record(&ls[0]).unwrap();
    assert_eq!(r.op, ConnLogBody::ClientToServerMsg(vec![1, 2, 255]));
    let v: serde_json::Value = serde_json::from_slice(&ls[0]).unwrap();
    let arr: Vec<u64> = v["op"]["ClientToServerMsg"].as_array().unwrap().iter().map(|x| x.as_u64().unwrap()).collect();
    assert_eq!(arr, vec![1, 2, 255]);
}

#[test]
fn lines_split_back_into_records_in_order() {
    let rt = runtime();
    let root = root_handle(&rt, "order");
    let a = root.clone_with_conn_id(7);
    let b = root.clone_with_conn_id(8);
    let mut out = Vec::new();
    let ts = Timestamp::from_unix_nanos(5);
    a.append_to(&mut out, ConnLogBody::Connect { ipaddr: "x\ny".to_string() }, ts).unwrap();
    b.append_to(&mut out, ConnLogBody::ServerToClientMsg(vec![10]), ts).unwrap();
    a.append_to(&mut out, ConnLogBody::ClientToServerMsg(vec![10, 13]), ts).unwrap();
    b.append_to(&mut out, ConnLogBody::Close, ts).unwrap();
    a.append_to(&mut out, ConnLogBody::Close, ts).unwrap();
    let recs: Vec<_> = lines(&out).iter().map(|l| decode_record(l).unwrap()).collect();
    assert_eq!(recs.len(), 5);
    let of_a: Vec<ConnLogBody> = recs.iter().filter(|r| r.conn_id == 7).map(|r| r.op.clone()).collect();
    assert_eq!(
        of_a,
        vec![
            ConnLogBody::Connect { ipaddr: "x\ny".to_string() },
            ConnLogBody::ClientToServerMsg(vec![10, 13]),
            ConnLogBody::Close,
        ]
    );
    assert!(recs.iter().all(|r| r.ts == "1970-01-01T00:00:00.000000005Z"));
}

#[test]
fn handle_record_carries_its_id() {
    let rt = runtime();
    let root = root_handle(&rt, "record");
    let h = root.clone_with_conn_id(9);
    assert_eq!(h.conn_id(), 9);
    let m = h.record(ConnLogBody::Close, Timestamp::from_unix_nanos(3)).unwrap();
    assert_eq!(m, ConnLogMsg::new(9, ConnLogBody::Close, Timestamp::from_unix_nanos(3)));
}

#[test]
fn piece_parsers_read_at_positions() {
    assert_eq!(parse_digits(b"x123,", 1, 10), Some((123, 4)));
    assert_eq!(parse_digits(b"0", 0, 1), Some((0, 1)));
    assert_eq!(parse_digits(b"1234", 0, 3), None);
    assert_eq!(parse_digits(b",", 0, 3), None);
    assert_eq!(parse_quoted(b"\"a\\nb\\u001f\"!", 0), Some((b"a\nb\x1f".to_vec(), 12)));
    assert_eq!(parse_quoted(b"\"open", 0), None);
    assert_eq!(parse_byte_list(b"[1,2]}", 0), Some((vec![1, 2], 5)));
    assert_eq!(parse_byte_list(b"[]", 0), Some((vec![], 2)));
    assert_eq!(parse_byte_list(b"[1,]", 0), None);
    assert_eq!(parse_body_at(b"xx\"Close\"yy", 2), Some((ConnLogBody::Close, 9)));
}

#[test]
fn derived_handles_keep_enabled_state() {
    let rt = runtime();
    let root = root_handle(&rt, "chain");
    let last = root.clone_with_conn_id(1).clone_with_conn_id(2).clone_with_conn_id(3);
    assert!(last.is_enabled());
    assert_eq!(last.conn_id(), 3);
    assert!(Arc::ptr_eq(&last.sink().unwrap(), &root.sink().unwrap()));
    let off = ConnLog::default().clone_with_conn_id(1).clone_with_conn_id(2);
    assert!(!off.is_enabled());
    assert!(off.sink().is_none());
}
