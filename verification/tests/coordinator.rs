use fist::fist_core::{process_sync_info, record_service_addr, scan_static_resource, send_rollback, FistState};
use fist::model::{Finally, RollBackSql, Settings, SyncInfo, SyncInfoWrapper};

fn report(fist_id: &str, rollback: bool, end: bool, port: i32) -> SyncInfoWrapper {
    SyncInfoWrapper {
        sync_info: SyncInfo {
            fist_id: fist_id.to_string(),
            rollback,
            rollback_sql: vec![RollBackSql {
                sql: format!("delete from t where port = {}", port),
                params: vec![vec![serde_json::Value::from(port)]],
            }],
            end,
            service_addr: String::new(),
            service_port: port,
        },
    }
}

fn ip(s: &str) -> Option<String> {
    Some(s.to_string())
}

#[test]
fn new_state_knows_nothing() {
    let state = FistState::new();
    assert_eq!(state.counter(), 0);
    assert!(!state.is_open(&"tx".to_string()));
    assert_eq!(state.rollback_of(&"tx".to_string()), None);
}

#[test]
fn service_addr_is_built_from_peer_ip_and_port() {
    let mut info = report("tx", false, false, 8080).sync_info;
    record_service_addr(&mut info, ip("10.0.0.7"));
    assert_eq!(info.service_addr, "http://10.0.0.7:8080/fist/core");
}

#[test]
fn service_addr_writes_negative_and_zero_ports_in_decimal() {
    let mut info = report("tx", false, false, -42).sync_info;
    record_service_addr(&mut info, ip("::1"));
    assert_eq!(info.service_addr, "http://::1:-42/fist/core");
    let mut info = report("tx", false, false, 0).sync_info;
    record_service_addr(&mut info, ip("127.0.0.1"));
    assert_eq!(info.service_addr, "http://127.0.0.1:0/fist/core");
    let mut info = report("tx", false, false, i32::MIN).sync_info;
    record_service_addr(&mut info, ip("h"));
    assert_eq!(info.service_addr, "http://h:-2147483648/fist/core");
}

#[test]
fn service_addr_is_kept_without_peer_address() {
    let mut info = report("tx", false, false, 9000).sync_info;
    info.service_addr = "http://earlier".to_string();
    record_service_addr(&mut info, None);
    assert_eq!(info.service_addr, "http://earlier");
    assert_eq!(info.service_port, 9000);
    assert_eq!(info.fist_id, "tx");
}

#[test]
fn open_report_is_filed_without_calls() {
    let mut state = FistState::new();
    let calls = process_sync_info(&mut state, report("tx", false, false, 1), ip("10.0.0.1"));
    assert!(calls.is_empty());
    assert!(state.is_open(&"tx".to_string()));
    assert_eq!(state.rollback_of(&"tx".to_string()), Some(false));
    assert_eq!(state.counter(), 1);
}

#[test]
fn rollback_request_sticks_until_end() {
    let mut state = FistState::new();
    process_sync_info(&mut state, report("tx", true, false, 1), ip("10.0.0.1"));
    assert_eq!(state.rollback_of(&"tx".to_string()), Some(true));
    process_sync_info(&mut state, report("tx", false, false, 2), ip("10.0.0.2"));
    assert_eq!(state.rollback_of(&"tx".to_string()), Some(true));
    assert_eq!(state.counter(), 2);
}

#[test]
fn closing_with_rollback_calls_every_participant_in_order() {
    let mut state = FistState::new();
    assert!(process_sync_info(&mut state, report("tx", false, false, 1), ip("10.0.0.1")).is_empty());
    assert!(process_sync_info(&mut state, report("tx", true, false, 2), ip("10.0.0.2")).is_empty());
    let calls = process_sync_info(&mut state, report("tx", false, true, 3), ip("10.0.0.3"));
    let urls: Vec<&str> = calls.iter().map(|c| c.url.as_str()).collect();
    assert_eq!(
        urls,
        vec!["http://10.0.0.1:1/fist/core", "http://10.0.0.2:2/fist/core", "http://10.0.0.3:3/fist/core"]
    );
    let ports: Vec<i32> = calls.iter().map(|c| c.body.service_port).collect();
    assert_eq!(ports, vec![1, 2, 3]);
    for call in &calls {
        assert_eq!(call.body.fist_id, "tx");
        assert_eq!(call.url, call.body.service_addr);
        assert_eq!(call.body.rollback_sql.len(), 1);
        assert_eq!(call.body.rollback_sql[0].params[0][0], serde_json::Value::from(call.body.service_port));
    }
    assert!(calls[1].body.rollback);
    assert!(calls[2].body.end);
    assert!(!state.is_open(&"tx".to_string()));
    assert_eq!(state.rollback_of(&"tx".to_string()), None);
    assert_eq!(state.counter(), 3);
}

#[test]
fn closing_report_can_itself_ask_for_rollback() {
    let mut state = FistState::new();
    process_sync_info(&mut state, report("tx", false, false, 1), ip("a"));
    let calls = process_sync_info(&mut state, report("tx", true, true, 2), ip("b"));
    assert_eq!(calls.len(), 2);
    assert_eq!(calls[0].url, "http://a:1/fist/core");
    assert_eq!(calls[1].url, "http://b:2/fist/core");
}

#[test]
fn closing_without_rollback_sends_nothing_and_forgets() {
    let mut state = FistState::new();
    process_sync_info(&mut state, report("tx", false, false, 1), ip("a"));
    let calls = process_sync_info(&mut state, report("tx", false, true, 2), ip("b"));
    assert!(calls.is_empty());
    assert!(!state.is_open(&"tx".to_string()));
}

#[test]
fn single_closing_report_opens_and_closes() {
    let mut state = FistState::new();
    let calls = process_sync_info(&mut state, report("solo", true, true, 5), ip("c"));
    assert_eq!(calls.len(), 1);
    assert_eq!(calls[0].url, "http://c:5/fist/core");
    assert!(!state.is_open(&"solo".to_string()));
}

#[test]
fn closed_transaction_starts_afresh() {
    let mut state = FistState::new();
    process_sync_info(&mut state, report("tx", true, false, 1), ip("a"));
    process_sync_info(&mut state, report("tx", false, true, 2), ip("a"));
    process_sync_info(&mut state, report("tx", false, false, 3), ip("a"));
    assert_eq!(state.rollback_of(&"tx".to_string()), Some(false));
    let calls = process_sync_info(&mut state, report("tx", false, true, 4), ip("a"));
    assert!(calls.is_empty());
}

#[test]
fn other_transactions_are_untouched() {
    let mut state = FistState::new();
    process_sync_info(&mut state, report("one", true, false, 1), ip("a"));
    process_sync_info(&mut state, report("two", false, false, 2), ip("b"));
    let calls = process_sync_info(&mut state, report("one", false, true, 3), ip("c"));
    assert_eq!(calls.len(), 2);
    assert!(calls.iter().all(|c| c.body.fist_id == "one"));
    assert!(state.is_open(&"two".to_string()));
    assert_eq!(state.rollback_of(&"two".to_string()), Some(false));
}

#[test]
fn report_without_peer_address_keeps_its_own_address() {
    let mut state = FistState::new();
    let mut w = report("tx", true, true, 7);
    w.sync_info.service_addr = "http://given".to_string();
    let calls = process_sync_info(&mut state, w, None);
    assert_eq!(calls.len(), 1);
    assert_eq!(calls[0].url, "http://given");
}

#[test]
fn scan_ignores_unknown_transaction() {
    let mut state = FistState::new();
    process_sync_info(&mut state, report("known", false, false, 1), ip("a"));
    let calls = scan_static_resource(&mut state, "unknown".to_string(), true, true);
    assert!(calls.is_empty());
    assert!(state.is_open(&"known".to_string()));
    assert_eq!(state.counter(), 1);
}

#[test]
fn scan_without_end_keeps_transaction() {
    let mut state = FistState::new();
    process_sync_info(&mut state, report("known", true, false, 1), ip("a"));
    let calls = scan_static_resource(&mut state, "known".to_string(), true, false);
    assert!(calls.is_empty());
    assert!(state.is_open(&"known".to_string()));
}

#[test]
fn send_rollback_posts_each_report_to_its_address() {
    let mut a = report("tx", false, false, 1).sync_info;
    a.service_addr = "http://a".to_string();
    let mut b = report("tx", true, true, 2).sync_info;
    b.service_addr = "http://b".to_string();
    let calls = send_rollback(vec![a, b]);
    assert_eq!(calls.len(), 2);
    assert_eq!(calls[0].url, "http://a");
    assert_eq!(calls[0].body.service_port, 1);
    assert_eq!(calls[1].url, "http://b");
    assert_eq!(calls[1].body.service_port, 2);
    assert!(send_rollback(Vec::new()).is_empty());
}

#[test]
fn settings_default_clears_every_ten() {
    let settings = Settings::default();
    assert_eq!(settings.fist.clear_static_times, 10);
}

#[test]
fn finally_hands_out_its_closure() {
    let ran = std::cell::Cell::new(false);
    let guard = Finally::new(|| ran.set(true));
    let f = guard.into_pending().unwrap();
    assert!(!ran.get());
    f();
    assert!(ran.get());
}
