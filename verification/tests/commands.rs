use tikv_service::cmd::debug::DebugAction;
use tikv_service::cmd::ltrim::{Ltrim, LtrimDisposition};
use tikv_service::cmd::{parse_i64, Parse, ParseError};
use tikv_service::config::{plan_raw_connect, plan_txn_connect, BackendOptions};
use tikv_service::errors::EngineError;
use tikv_service::txn::{
    next_retry_decision, AttemptOutcome, ListCommandCtx, RetryDecision, RetryPolicy,
};

fn opts(ca: &str, cert: &str, key: &str) -> BackendOptions {
    BackendOptions {
        timeout_ms: 200,
        allow_batch: true,
        completion_queue_size: 1,
        grpc_keepalive_time_ms: 10_000,
        grpc_keepalive_timeout_ms: 3_000,
        overload_threshold: 0,
        max_batch_size: 8,
        max_inflight_requests: 100,
        max_batch_wait_time_ms: 10,
        ca_path: ca.to_string(),
        cert_path: cert.to_string(),
        key_path: key.to_string(),
        conn_concurrency: 4,
        meta_key_number: 16,
    }
}

#[test]
fn parse_i64_accepts_integers() {
    assert_eq!(parse_i64(b"0"), Some(0));
    assert_eq!(parse_i64(b"42"), Some(42));
    assert_eq!(parse_i64(b"-1"), Some(-1));
    assert_eq!(parse_i64(b"+5"), Some(5));
    assert_eq!(parse_i64(b"007"), Some(7));
    assert_eq!(parse_i64(b"9223372036854775807"), Some(i64::MAX));
    assert_eq!(parse_i64(b"-9223372036854775808"), Some(i64::MIN));
}

#[test]
fn parse_i64_rejects_non_integers() {
    assert_eq!(parse_i64(b""), None);
    assert_eq!(parse_i64(b"-"), None);
    assert_eq!(parse_i64(b"+"), None);
    assert_eq!(parse_i64(b"12x"), None);
    assert_eq!(parse_i64(b" 1"), None);
    assert_eq!(parse_i64(b"9223372036854775808"), None);
    assert_eq!(parse_i64(b"-9223372036854775809"), None);
}

#[test]
fn parse_cursor_hands_out_arguments() {
    let mut p = Parse::new(vec!["mylist".to_string(), "0".to_string(), "-1".to_string()]);
    assert_eq!(p.next_string().unwrap(), "mylist");
    assert_eq!(p.next_int().unwrap(), 0);
    assert_eq!(p.next_int().unwrap(), -1);
    assert_eq!(p.next_string().unwrap_err(), ParseError::EndOfStream);
    assert_eq!(p.next_int().unwrap_err(), ParseError::EndOfStream);
}

#[test]
fn parse_cursor_flags_bad_numbers() {
    let mut p = Parse::new(vec!["abc".to_string()]);
    assert_eq!(p.next_int().unwrap_err(), ParseError::Invalid);
}

#[test]
fn ltrim_parse_frames_reads_key_and_bounds() {
    let mut p = Parse::new(vec!["mylist".to_string(), "1".to_string(), "3".to_string()]);
    let lt = Ltrim::parse_frames(&mut p).unwrap();
    assert_eq!(lt.key(), "mylist");
}

#[test]
fn ltrim_parse_frames_propagates_errors() {
    let mut p = Parse::new(vec!["mylist".to_string()]);
    assert_eq!(Ltrim::parse_frames(&mut p).unwrap_err(), ParseError::EndOfStream);
    let mut p = Parse::new(vec!["mylist".to_string(), "x".to_string(), "3".to_string()]);
    assert_eq!(Ltrim::parse_frames(&mut p).unwrap_err(), ParseError::Invalid);
}

#[test]
fn ltrim_parse_argv_is_lenient() {
    let ok = Ltrim::parse_argv(&vec!["k".to_string(), "1".to_string(), "3".to_string()]).unwrap();
    assert!(matches!(ok.ltrim(None, true), LtrimDisposition::Transactional { .. }));
    let wrong_count = Ltrim::parse_argv(&vec!["k".to_string()]).unwrap();
    assert_eq!(wrong_count.key(), "");
    assert!(matches!(wrong_count.ltrim(None, true), LtrimDisposition::InvalidArguments));
    let bad_int =
        Ltrim::parse_argv(&vec!["k".to_string(), "one".to_string(), "3".to_string()]).unwrap();
    assert_eq!(bad_int.key(), "");
    assert!(matches!(bad_int.ltrim(None, true), LtrimDisposition::InvalidArguments));
}

#[test]
fn ltrim_routes_by_validity_and_mode() {
    let lt = Ltrim::new("mylist", 1, 3);
    match lt.ltrim(None, true) {
        LtrimDisposition::Transactional { key, start, end, txn } => {
            assert_eq!(key, "mylist");
            assert_eq!(start, 1);
            assert_eq!(end, 3);
            assert_eq!(txn, None);
        }
        _ => panic!("a valid trim in transactional mode executes"),
    }
    let invalid = Ltrim::new_invalid();
    assert!(matches!(invalid.ltrim(None, true), LtrimDisposition::InvalidArguments));
}

#[test]
fn supplied_transaction_handle_is_carried_through() {
    // a caller batching several commands hands its transaction id in; the
    // routing keeps it with the parameters and opens nothing of its own
    match Ltrim::new("k", 1, 3).ltrim(Some(9), true) {
        LtrimDisposition::Transactional { txn, .. } => assert_eq!(txn, Some(9)),
        _ => panic!("a valid trim in transactional mode executes"),
    }
    assert!(matches!(
        Ltrim::new_invalid().ltrim(Some(9), true),
        LtrimDisposition::InvalidArguments
    ));
}

#[test]
fn raw_path_always_refuses_trim() {
    // a trim needs bounds and members updated atomically: the raw path
    // refuses rather than apply it partially
    assert!(matches!(Ltrim::new("k", 0, -1).ltrim(None, false), LtrimDisposition::Unsupported));
    assert!(matches!(Ltrim::new("k", 5, 2).ltrim(None, false), LtrimDisposition::Unsupported));
}

#[test]
fn debug_dispatch_is_case_insensitive() {
    assert_eq!(tikv_service::cmd::debug::Debug::new("profiler_start").action(), DebugAction::StartProfiler);
    assert_eq!(tikv_service::cmd::debug::Debug::new("PROFILER_START").action(), DebugAction::StartProfiler);
    assert_eq!(tikv_service::cmd::debug::Debug::new("Profiler_Stop").action(), DebugAction::StopProfiler);
    assert_eq!(tikv_service::cmd::debug::Debug::new("reload").action(), DebugAction::Unknown);
    assert_eq!(tikv_service::cmd::debug::Debug::new("").action(), DebugAction::Unknown);
}

#[test]
fn debug_parse_frames_takes_the_subcommand() {
    let mut p = Parse::new(vec!["profiler_start".to_string()]);
    let d = tikv_service::cmd::debug::Debug::parse_frames(&mut p).unwrap();
    assert_eq!(d.action(), DebugAction::StartProfiler);
    let mut empty = Parse::new(vec![]);
    assert!(tikv_service::cmd::debug::Debug::parse_frames(&mut empty).is_err());
}

#[test]
fn retry_rule_recovers_only_conflicts() {
    let policy = RetryPolicy { max_attempts: 3, backoff_ms: 10 };
    assert_eq!(next_retry_decision(&policy, 0, AttemptOutcome::Committed), RetryDecision::Done);
    assert_eq!(
        next_retry_decision(&policy, 0, AttemptOutcome::Failed),
        RetryDecision::GiveUpError
    );
    assert_eq!(
        next_retry_decision(&policy, 0, AttemptOutcome::Conflicted),
        RetryDecision::RetryAfter { wait_ms: 10 }
    );
    assert_eq!(
        next_retry_decision(&policy, 1, AttemptOutcome::Conflicted),
        RetryDecision::RetryAfter { wait_ms: 10 }
    );
    assert_eq!(
        next_retry_decision(&policy, 2, AttemptOutcome::Conflicted),
        RetryDecision::GiveUpConflict
    );
}

#[test]
fn context_owns_its_transaction_only_without_external_one() {
    assert!(ListCommandCtx::new(None).owns_txn());
    assert!(!ListCommandCtx::new(Some(9)).owns_txn());
}

#[test]
fn connect_plans_follow_tls_material() {
    let no_tls = plan_txn_connect(&opts("", "", ""));
    assert!(!no_tls.use_tls);
    assert_eq!(no_tls.sessions_to_create, 4);
    assert_eq!(no_tls.timeout_ms, 200);
    let with_ca = plan_txn_connect(&opts("/etc/ca.pem", "", ""));
    assert!(with_ca.use_tls);
    let with_key_only = plan_raw_connect(&opts("", "", "/etc/key.pem"));
    assert!(with_key_only.use_tls);
    assert_eq!(with_key_only.sessions_to_create, 1);
}

#[test]
fn only_conflicts_are_retryable() {
    assert!(EngineError::Conflict.is_retryable());
    assert!(!EngineError::Backend.is_retryable());
    assert!(!EngineError::NotConnected.is_retryable());
    assert!(!EngineError::Connect.is_retryable());
    assert!(!EngineError::Unsupported.is_retryable());
}
