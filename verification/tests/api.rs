//! What requests are answered.

use blaze::api::{
    accepts_injection, component, connected, injected_edge, member_cap, members, parse_scope,
    ComponentResponse, RequestError, RpcCode, DEFAULT_MEMBER_CAP, MAX_MEMBER_CAP,
};
use blaze::graph::{ScopedForest, Visibility};

#[test]
fn scopes_are_global_or_a_number() {
    assert_eq!(parse_scope("global"), Ok(0));
    assert_eq!(parse_scope("GloBAL"), Ok(0));
    assert_eq!(parse_scope("17"), Ok(17));
    assert_eq!(parse_scope("4294967295"), Ok(u32::MAX));
    assert!(parse_scope("4294967296").is_err());
    assert!(parse_scope("globa").is_err());
    assert!(parse_scope("-1").is_err());
    assert_eq!(
        parse_scope("seven").unwrap_err().to_text(),
        "invalid scope 'seven': expected 'global' or a numeric scope id"
    );
}

#[test]
fn a_member_cap_has_a_default_and_a_ceiling() {
    assert_eq!(member_cap(0), Ok(DEFAULT_MEMBER_CAP));
    assert_eq!(member_cap(12), Ok(12));
    assert_eq!(member_cap(10_000), Ok(MAX_MEMBER_CAP));
    let e = member_cap(10_001).unwrap_err();
    assert_eq!(e.to_text(), "cap must be at most 10000, got 10001");
}

#[test]
fn queries_are_answered_from_the_forest() {
    let mut f = ScopedForest::new().tracking_members();
    f.apply(&injected_edge(500, 105, vec![], None, 1));
    f.apply(&injected_edge(7, 105, vec![3, 3], None, 1));
    assert_eq!(component(&mut f, 0, 500), ComponentResponse { scope: 0, node: 500, root: 105 });
    assert_eq!(component(&mut f, 3, 500).root, 7);
    assert!(connected(&mut f, 3, 7, 500).connected);
    assert!(!connected(&mut f, 0, 7, 500).connected);
    let mut m = members(&mut f, 3, 500, 0).unwrap();
    m.members.sort_unstable();
    assert_eq!((m.members, m.root, m.truncated), (vec![7, 105, 500], 7, false));
    assert!(members(&mut f, 3, 500, 2).unwrap().truncated);
    assert_eq!(members(&mut f, 3, 500, 20_000).unwrap_err(), RequestError::CapTooLarge { cap: 20_000 });
}

#[test]
fn without_a_member_index_the_query_is_refused() {
    let mut f = ScopedForest::new();
    let e = members(&mut f, 0, 1, 10).unwrap_err();
    assert_eq!(e, RequestError::NoMemberIndex);
    assert!(e.to_text().starts_with("this worker has no member index"));
}

#[test]
fn an_injected_edge_is_canonical() {
    let e = injected_edge(1, 2, vec![4, 0], Some("p".to_string()), 9);
    assert_eq!(e.visibility, Visibility::Global);
    assert_eq!((e.src, e.dst, e.event_time_ms, e.props.as_deref()), (1, 2, 9, Some("p")));
    match injected_edge(1, 2, vec![4, 9, 4], None, 9).visibility {
        Visibility::Scoped(l) => assert_eq!(l.to_vec(), vec![4, 9]),
        v => panic!("{v:?}"),
    }
}

#[test]
fn injection_is_refused_on_a_log_backed_worker() {
    assert!(accepts_injection(false, true).is_ok());
    assert_eq!(accepts_injection(true, true), Err(RequestError::LogBacked));
    assert_eq!(accepts_injection(false, false), Err(RequestError::ShutDown));
    assert_eq!(RequestError::ShutDown.to_text(), "ingest pipeline is shut down");
    assert!(RequestError::LogBacked.to_text().contains("Produce to the log"));
}

#[test]
fn every_refusal_has_its_status_and_code() {
    let scope = RequestError::InvalidScope { raw: "x".to_string() };
    let cap = RequestError::CapTooLarge { cap: 20_000 };
    let expected = [
        (&scope, 400, RpcCode::InvalidArgument),
        (&cap, 400, RpcCode::InvalidArgument),
        (&RequestError::NoMemberIndex, 501, RpcCode::Unimplemented),
        (&RequestError::LogBacked, 409, RpcCode::FailedPrecondition),
        (&RequestError::ShutDown, 503, RpcCode::Unavailable),
    ];
    for (e, status, code) in expected {
        assert_eq!(e.http_status(), status);
        assert_eq!(e.rpc_code(), code);
    }
}
