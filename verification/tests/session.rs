use std::time::{Duration, UNIX_EPOCH};

use decoded_shredstream::{
    auth_metadata, classify, connect_failure, creation_offset, creation_time, normalize_endpoint, plan_connection,
    recv_buffer_report, AuthStyle,
    Classified, ConnectError, Filter, FilterError, Filters, Jitter, Notice, Session, SessionState,
    StatusCode, Step, StreamError, DEFAULT_PORT,
};

fn everything() -> Filters {
    Filters::new().add("all".to_string(), Filter::all())
}

fn session() -> Session {
    Session::new(everything()).unwrap()
}

fn url(e: &str) -> Option<String> {
    match normalize_endpoint(e) {
        Ok(u) => Some(u),
        Err(ConnectError::InvalidEndpoint(given)) => {
            assert_eq!(given, e);
            None
        }
        Err(_) => panic!("unexpected error"),
    }
}

#[test]
fn endpoint_without_port_gets_the_default() {
    assert_eq!(DEFAULT_PORT, 9991);
    assert_eq!(url("example.com"), Some("http://example.com:9991".to_string()));
    assert_eq!(url("example.com:1234"), Some("http://example.com:1234".to_string()));
}

#[test]
fn endpoint_is_trimmed_and_loses_http() {
    assert_eq!(url("  http://example.com:80 \n"), Some("http://example.com:80".to_string()));
    assert_eq!(url("\u{3000}host\u{a0}"), Some("http://host:9991".to_string()));
}

#[test]
fn invalid_endpoints_are_refused() {
    assert_eq!(url(""), None);
    assert_eq!(url("   "), None);
    assert_eq!(url("http://"), None);
    assert_eq!(url("https://example.com"), None);
    assert_eq!(url("example.com/path"), None);
}

#[test]
fn ipv6_literals_need_brackets_for_a_port() {
    assert_eq!(url("[::1]"), Some("http://[::1]:9991".to_string()));
    assert_eq!(url("[::1]:9000"), Some("http://[::1]:9000".to_string()));
}

#[test]
fn a_colon_without_digits_is_not_a_port() {
    assert_eq!(url("host:"), Some("http://host::9991".to_string()));
    assert_eq!(url("host:8a"), Some("http://host:8a:9991".to_string()));
}

#[test]
fn normalizing_twice_changes_nothing() {
    for e in ["example.com", " http://h:1 ", "[::1]", "host:"] {
        let once = url(e).unwrap();
        assert_eq!(url(&once), Some(once.clone()));
    }
}

#[test]
fn credentials_header() {
    let (k, v) = auth_metadata(AuthStyle::Bearer, "tok");
    assert_eq!(k, "authorization");
    assert_eq!(v, "Bearer tok");
    let (k, v) = auth_metadata(AuthStyle::XToken, "tok");
    assert_eq!(k, "x-token");
    assert_eq!(v, "tok");
    assert_eq!(AuthStyle::default(), AuthStyle::Bearer);
}

#[test]
fn statuses_are_classified() {
    assert_eq!(classify(StatusCode::Unauthenticated, "m"), Classified::Terminal(StreamError::AuthRefused));
    assert_eq!(classify(StatusCode::PermissionDenied, "m"), Classified::Terminal(StreamError::Kicked));
    assert_eq!(
        classify(StatusCode::InvalidArgument, "bad filter"),
        Classified::Terminal(StreamError::InvalidFilter("bad filter".to_string()))
    );
    assert_eq!(classify(StatusCode::DataLoss, "m"), Classified::DataLoss);
    assert_eq!(classify(StatusCode::Unavailable, "m"), Classified::Recoverable);
    assert_eq!(classify(StatusCode::Success, "m"), Classified::Recoverable);
}

#[test]
fn first_connection_errors() {
    match connect_failure(StatusCode::Unauthenticated, "m", "status text".to_string()) {
        ConnectError::Transport(s) => {
            assert_eq!(s, "authentication refused (check your token and product)")
        }
        _ => panic!(),
    }
    match connect_failure(StatusCode::Unavailable, "m", "status text".to_string()) {
        ConnectError::Transport(s) => assert_eq!(s, "status text"),
        _ => panic!(),
    }
}

#[test]
fn jitter_steps() {
    let mut j = Jitter::from_clock(Some(1));
    assert_eq!(j.next_bits(), 1082269761u64 >> 11);
    let mut j = Jitter::from_clock(None);
    assert_eq!(j.next_bits(), 7744336963927657);
    let mut j = Jitter::from_clock(Some(0));
    for _ in 0..1000 {
        assert!(j.next_bits() < 1u64 << 53);
    }
}

#[test]
fn receive_buffer_report() {
    assert_eq!(recv_buffer_report(100, 150, true).0, 75);
    assert!(matches!(
        recv_buffer_report(100, 150, true).1,
        Some(Notice::RecvBufferClamped { requested: 100, effective: 75 })
    ));
    assert_eq!(recv_buffer_report(100, 150, false).0, 150);
    assert!(recv_buffer_report(100, 150, false).1.is_none());
    assert!(recv_buffer_report(100, 200, true).1.is_none());
}

#[test]
fn session_backs_off_then_connects() {
    let mut s = session();
    assert_eq!(s.poll(), Step::Backoff { attempt: 1 });
    assert_eq!(s.poll(), Step::Backoff { attempt: 2 });
    assert!(!s.connected());
    assert_eq!(s.poll(), Step::Receive);
    assert!(s.received(false, Some((5, Some(10)))));
    assert_eq!(s.stats().messages, 1);
    assert_eq!(s.stats().bytes, 10);
    assert_eq!(s.stats().last_slot, 5);
    assert_eq!(s.stats().reconnects, 0);
    s.ended();
    // no stable period: the backoff goes on from the last attempt
    assert_eq!(s.poll(), Step::Backoff { attempt: 3 });
    assert!(s.connected());
    assert_eq!(s.stats().reconnects, 1);
}

#[test]
fn stable_connection_restarts_the_backoff() {
    let mut s = session();
    s.poll();
    s.poll();
    s.connected();
    assert!(s.received(true, Some((1, Some(1)))));
    s.ended();
    assert_eq!(s.poll(), Step::Backoff { attempt: 1 });
}

#[test]
fn undeliverable_responses_are_decode_errors() {
    let mut s = session();
    s.connected();
    assert!(!s.received(false, None));
    assert!(!s.received(false, Some((1, None))));
    assert!(!s.received(false, Some((1, Some(0)))));
    assert_eq!(s.stats().decode_errors, 3);
    assert_eq!(s.stats().messages, 0);
}

#[test]
fn terminal_error_is_reported_once() {
    let mut s = session();
    s.connected();
    assert!(!s.failed(classify(StatusCode::PermissionDenied, ""), false));
    assert_eq!(s.state(), &SessionState::Terminal(StreamError::Kicked));
    assert_eq!(s.poll(), Step::Fail(StreamError::Kicked));
    assert_eq!(s.poll(), Step::End);
    assert_eq!(s.poll(), Step::End);
}

#[test]
fn rejected_filters_end_the_stream_with_the_message() {
    let mut s = session();
    s.connected();
    s.failed(classify(StatusCode::InvalidArgument, "too many keys"), false);
    assert_eq!(s.filters(), &everything());
    assert_eq!(s.poll(), Step::Fail(StreamError::InvalidFilter("too many keys".to_string())));
}

#[test]
fn data_loss_reconnects_at_once_unless_recent() {
    let mut s = session();
    s.connected();
    assert!(s.failed(classify(StatusCode::DataLoss, ""), false));
    assert_eq!(s.state(), &SessionState::Disconnected);
    // the immediate reconnection is announced and counted like any other
    assert_eq!(s.poll(), Step::Reconnect { attempt: 1 });
    s.reconnect_failed();
    assert_eq!(s.poll(), Step::Backoff { attempt: 2 });
    assert!(s.connected());
    assert_eq!(s.stats().reconnects, 1);
    assert!(!s.failed(classify(StatusCode::DataLoss, ""), true));
    assert_eq!(s.state(), &SessionState::Disconnected);
    assert_eq!(s.poll(), Step::Backoff { attempt: 3 });
}

#[test]
fn immediate_reconnection_after_data_loss_counts_when_it_connects() {
    let mut s = session();
    s.connected();
    assert!(s.failed(classify(StatusCode::DataLoss, ""), false));
    assert_eq!(s.poll(), Step::Reconnect { attempt: 1 });
    assert!(s.connected());
    assert_eq!(s.stats().reconnects, 1);
    assert_eq!(s.poll(), Step::Receive);
}

#[test]
fn recoverable_failures_disconnect() {
    let mut s = session();
    s.connected();
    assert!(!s.failed(classify(StatusCode::Unavailable, ""), false));
    assert_eq!(s.state(), &SessionState::Disconnected);
    assert_eq!(s.poll(), Step::Backoff { attempt: 1 });
}

#[test]
fn close_ends_the_stream_without_error() {
    let mut s = session();
    s.connected();
    s.close();
    assert_eq!(s.poll(), Step::End);
}

#[test]
fn session_needs_a_valid_filter_map() {
    assert!(matches!(Session::new(Filters::new()), Err(FilterError::Empty)));
    let mut many = Filters::new();
    for i in 0..17 {
        many = many.add(format!("f{i}"), Filter::all());
    }
    assert!(matches!(Session::new(many), Err(FilterError::TooManyFilters(17))));
}

#[test]
fn updated_filters_are_the_ones_sent_on_reconnection() {
    let mut s = session();
    let narrower = Filters::new().add(
        "watched".to_string(),
        Filter::new().include_keys(vec!["11111111111111111111111111111111".to_string()]).unwrap(),
    );
    assert_eq!(s.update_filters(narrower.clone()), Ok(()));
    assert_eq!(s.filters(), &narrower);
    s.connected();
    s.failed(classify(StatusCode::Unavailable, ""), false);
    s.poll();
    s.connected();
    assert_eq!(s.filters(), &narrower);
    assert_eq!(
        s.update_filters(Filters::new()),
        Err(StreamError::InvalidFilter(
            "empty filter map delivers nothing — use Filter::all() to receive everything"
                .to_string()
        ))
    );
    assert_eq!(s.filters(), &narrower);
}

#[test]
fn state_labels() {
    let mut s = session();
    assert_eq!(s.state().label(), "disconnected");
    s.connected();
    assert_eq!(s.state().label(), "connected");
    s.failed(classify(StatusCode::Unauthenticated, ""), false);
    assert_eq!(s.state().label(), "terminal");
    s.poll();
    assert_eq!(s.state().label(), "finished");
}

#[test]
fn connection_plan_checks_filters_then_endpoint() {
    assert!(matches!(
        plan_connection(Filters::new(), "host", AuthStyle::Bearer, "t"),
        Err(ConnectError::Filter(FilterError::Empty))
    ));
    assert!(matches!(
        plan_connection(Filters::new(), "a/b", AuthStyle::Bearer, "t"),
        Err(ConnectError::Filter(FilterError::Empty))
    ));
    match plan_connection(everything(), "a/b", AuthStyle::Bearer, "t") {
        Err(ConnectError::InvalidEndpoint(e)) => assert_eq!(e, "a/b"),
        _ => panic!("expected an invalid endpoint"),
    }
    let plan = plan_connection(everything(), " example.com ", AuthStyle::Bearer, "tok").unwrap();
    assert_eq!(plan.url, "http://example.com:9991");
    assert_eq!(plan.header, "authorization");
    assert_eq!(plan.value, "Bearer tok");
    assert_eq!(plan.session.state(), &SessionState::Disconnected);
    assert_eq!(plan.session.filters(), &everything());
    let plan = plan_connection(everything(), "http://h:1", AuthStyle::XToken, "tok").unwrap();
    assert_eq!(plan.url, "http://h:1");
    assert_eq!((plan.header, plan.value.as_str()), ("x-token", "tok"));
}

#[test]
fn creation_time_refuses_negative_parts() {
    assert_eq!(creation_time(-1, 0), None);
    assert_eq!(creation_time(0, -1), None);
    assert_eq!(creation_time(0, 0), Some(UNIX_EPOCH));
    assert_eq!(
        creation_time(1_700_000_000, 5),
        Some(UNIX_EPOCH + Duration::from_secs(1_700_000_000) + Duration::from_nanos(5))
    );
}

#[test]
fn creation_offset_keeps_seconds_and_nanoseconds_apart() {
    assert_eq!(creation_offset(-5, 3), None);
    assert_eq!(creation_offset(5, -3), None);
    assert_eq!(creation_offset(5, 3), Some((5, 3)));
    assert_eq!(creation_offset(i64::MAX, i32::MAX), Some((i64::MAX as u64, i32::MAX as u32)));
    assert_eq!(
        creation_time(3, 5),
        Some(UNIX_EPOCH + Duration::from_secs(3) + Duration::from_nanos(5))
    );
    // nanoseconds beyond a second carry into the seconds
    assert_eq!(
        creation_time(1, 1_500_000_000),
        Some(UNIX_EPOCH + Duration::from_millis(2500))
    );
}

#[test]
fn a_refused_filter_map_is_an_invalid_filter_with_its_text() {
    let mut s = session();
    let mut many = Filters::new();
    for i in 0..17 {
        many = many.add(format!("f{i}"), Filter::all());
    }
    assert_eq!(
        s.update_filters(many),
        Err(StreamError::InvalidFilter("17 named filters (max 16)".to_string()))
    );
    assert_eq!(s.filters(), &everything());
}

#[test]
fn error_texts() {
    assert_eq!(FilterError::Empty.text(), "empty filter map delivers nothing — use Filter::all() to receive everything");
    assert_eq!(FilterError::TooManyFilters(0).text(), "0 named filters (max 16)");
    assert_eq!(FilterError::TooManyFilters(1234).text(), "1234 named filters (max 16)");
    assert_eq!(
        FilterError::TooManyKeys("a\"b".to_string(), 1001).text(),
        "filter \"a\\\"b\" has 1001 keys (max 1000 per filter)"
    );
    assert_eq!(
        FilterError::InvalidKey("xyz".to_string()).text(),
        "filter key \"xyz\" is not a base58-encoded 32-byte public key"
    );
    assert_eq!(StreamError::AuthRefused.text(), "authentication refused (check your token and product)");
    assert_eq!(StreamError::Kicked.text(), "kicked by operator — do not reconnect in a loop");
    assert_eq!(StreamError::InvalidFilter("m".to_string()).text(), "invalid filter: m");
    assert_eq!(StreamError::Closed.text(), "client closed");
    assert_eq!(ConnectError::InvalidEndpoint("a/b".to_string()).text(), "invalid endpoint \"a/b\"");
    assert_eq!(ConnectError::Filter(FilterError::Empty).text(), FilterError::Empty.text());
    assert_eq!(ConnectError::InvalidToken.text(), "token contains invalid metadata characters");
    assert_eq!(ConnectError::Transport("x".to_string()).text(), "transport: x");
}
