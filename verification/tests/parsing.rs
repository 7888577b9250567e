use demiurge::auth::{GroupId, PrefixFingerprint, TenantId};
use demiurge::backend::Backend;
use demiurge::binary64::Real;
use demiurge::config::{
    require_backends, router_plan, RouterPlan, parse_cache_groups, parse_pool, parse_topology_map,
    rdma_routing_enabled, rebalancer_actuation_enabled, ConfigError,
};
use demiurge::http::{
    estimate_prompt_tokens, head_complete, is_decode_only, parse_path_tokens, parse_prompt_tokens,
    parse_request_identity, parse_u64_maybe_hex, RequestIdentity, MAX_HEAD,
};
use demiurge::serve::{
    after_admission, after_route, pump_pool_size, pump_queue_len, unavailable_response,
    worker_thread_count, prefill_response_fits, ConnSlots, ConnStep, Dispatcher, DispatchStep,
    SendResult,
};
use demiurge::admission::ShedReason;
use demiurge::ids::RequestId;
use demiurge::router::{Phase, RouteError, RoutePath};
use demiurge::stream::{CopyLoop, CopyStep, HeadReader, CHUNK};
use demiurge::topology::TopologyId;

#[test]
fn parse_request_identity_requires_all_headers() {
    let full = b"GET / HTTP/1.1\r\nx-demiurge-tenant: 5\r\nx-demiurge-group: 0x7\r\nx-demiurge-prefix-fp: 42\r\n\r\n";
    assert_eq!(
        parse_request_identity(full),
        Some(RequestIdentity {
            tenant: TenantId::new(5),
            group: GroupId::new(7),
            content_fp: PrefixFingerprint::new(42),
        })
    );

    let partial = b"GET / HTTP/1.1\r\nx-demiurge-tenant: 5\r\nx-demiurge-group: 7\r\n\r\n";
    assert_eq!(parse_request_identity(partial), None, "missing fp header");

    let garbage = b"GET / HTTP/1.1\r\nx-demiurge-tenant: bogus\r\nx-demiurge-group: 7\r\nx-demiurge-prefix-fp: 42\r\n\r\n";
    assert_eq!(parse_request_identity(garbage), None, "non-numeric tenant");
}

#[test]
fn parse_cache_groups_spec_round_trips() {
    let reg = parse_cache_groups("7@42@0xABC@1+2, 9@1@5@3")
        .expect("valid spec")
        .expect("non-empty registry");
    assert!(reg.is_member(GroupId::new(7), TenantId::new(1)));
    assert!(reg.is_member(GroupId::new(7), TenantId::new(2)));
    assert!(!reg.is_member(GroupId::new(7), TenantId::new(3)));
    assert!(reg.is_member(GroupId::new(9), TenantId::new(3)));
    assert!(reg.matches_template(GroupId::new(7), PrefixFingerprint::new(0xABC)));

    assert!(parse_cache_groups("").expect("empty spec ok").is_none());
    assert!(parse_cache_groups("7@42@1").is_err(), "missing tenants");
    assert!(parse_cache_groups("7@42@1@").is_err(), "empty tenant list");
}

#[test]
fn cache_group_errors_name_what_is_wrong() {
    assert_eq!(
        parse_cache_groups(" , 7@42@1 ").err(),
        Some(ConfigError::CacheGroupSpec { item: "7@42@1".to_string() })
    );
    assert_eq!(
        parse_cache_groups("7@42@1@ + ").err(),
        Some(ConfigError::CacheGroupTenants { item: "7@42@1@ +".to_string() })
    );
    for (spec, name, raw) in [
        ("x@42@1@2", "group", "x"),
        ("7@@1@2", "domain", ""),
        ("7@42@0xg@2", "template_fp", "0xg"),
        ("7@42@1@2+ y", "tenant", "y"),
    ] {
        assert_eq!(
            parse_cache_groups(spec).err(),
            Some(ConfigError::CacheGroupField {
                name: name.to_string(),
                raw: raw.to_string(),
                item: spec.to_string(),
            })
        );
    }
}

#[test]
fn topology_and_pools_are_taken_apart() {
    let map = parse_topology_map(" a@n0/r0/c0 ,, b@n1/r1/c1,a@n2//").unwrap();
    assert_eq!(map.place("a"), TopologyId::new("n2", "", ""));
    assert_eq!(map.place("b"), TopologyId::new("n1", "r1", "c1"));
    for bad in ["a", "a@n0/r0", "a@n0/r0/c0/d0"] {
        assert_eq!(
            parse_topology_map(bad).err(),
            Some(ConfigError::TopologySpec { item: bad.to_string() })
        );
    }
    // Only the first "@" separates the label.
    assert_eq!(parse_topology_map("a@b@c/d/e").unwrap().place("a").node, "b@c");
    let pool = parse_pool("pf0@127.0.0.1:1@0.5,\u{3000}bad@spec, x@y@z");
    assert_eq!(pool.len(), 3);
    assert_eq!(pool[0].as_ref().unwrap().address, "127.0.0.1:1");
    assert_eq!(pool[1], Err(ConfigError::BackendSpec { item: "bad@spec".to_string() }));
    assert_eq!(pool[2].as_ref().unwrap().seconds, "z");
}

#[test]
fn flags_are_read_literally() {
    for (value, want) in
        [(Some("1"), true), (Some("true"), true), (Some("yes"), true), (Some("TRUE"), false), (Some(""), false)]
    {
        assert_eq!(rdma_routing_enabled(value), want);
        assert_eq!(rebalancer_actuation_enabled(value), want);
    }
    assert!(!rdma_routing_enabled(None));
}

#[test]
fn numbers_are_decimal_or_hexadecimal() {
    for (text, want) in [
        ("0", Some(0)),
        ("42abc", Some(42)),
        ("", None),
        ("x", None),
        ("18446744073709551615", Some(u64::MAX)),
        ("18446744073709551616", None),
        ("0x1F", Some(31)),
        ("0XffFFffFFffFFffFF", Some(u64::MAX)),
        ("0x10000000000000000", None),
        ("0x", None),
        ("0x+a", Some(10)),
        ("0x1g", None),
    ] {
        assert_eq!(parse_u64_maybe_hex(text.as_bytes()), want, "{text}");
    }
}

#[test]
fn prompt_length_comes_from_header_then_path() {
    let both = b"GET /long/9 HTTP/1.1\r\nX-DEMIURGE-TOKENS:\t 77 tokens\r\n\r\n";
    assert_eq!(parse_prompt_tokens(both), Some(77));
    assert_eq!(parse_path_tokens(both), Some(9));
    assert_eq!(estimate_prompt_tokens(both), 77);
    assert_eq!(parse_path_tokens(b"GET   /prefill/12?x HTTP/1.1"), Some(12));
    assert_eq!(parse_path_tokens(b"GET /other/12"), None);
    assert_eq!(parse_path_tokens(b"GET"), None);
    assert_eq!(parse_path_tokens(b""), None);
    assert_eq!(estimate_prompt_tokens(b"GET / HTTP/1.1\r\n"), 513);
    // The first header of the name counts, and the name must stand directly before the colon.
    let twice = b"a\r\nx-demiurge-tokens : 1\nx-demiurge-tokens:2\r\nx-demiurge-tokens:3";
    assert_eq!(parse_prompt_tokens(twice), Some(2));
    assert_eq!(parse_prompt_tokens(b"x-demiurge-tokens:"), None);
}

#[test]
fn decode_only_by_header_path_or_probe() {
    for head in [
        &b"POST / HTTP/1.1\r\nx-demiurge-phase: DECODE \r\n\r\n"[..],
        b"POST /decode HTTP/1.1\r\n",
        b"GET /health HTTP/1.1\r\n",
        b"get /v1/models?limit=1 HTTP/1.1\r\n",
        b"HEAD /metrics",
        b"GET /x/version",
    ] {
        assert!(is_decode_only(head), "{head:?}");
    }
    for head in [
        &b"POST /health HTTP/1.1\r\n"[..],
        b"GET /healthy HTTP/1.1\r\n",
        b"GET / HTTP/1.1\r\nx: /decode\r\n",
        b"GET / HTTP/1.1\r\nx-demiurge-phase: prefill\r\n",
        b"",
    ] {
        assert!(!is_decode_only(head), "{head:?}");
    }
}

#[test]
fn head_ends_at_blank_line_or_limit() {
    assert!(head_complete(b"GET / HTTP/1.1\r\n\r\n"));
    assert!(!head_complete(b"GET / HTTP/1.1\r\n"));
    assert!(head_complete(&vec![b'a'; MAX_HEAD]));
    assert!(!head_complete(&vec![b'a'; MAX_HEAD - 1]));
}

#[test]
fn thread_counts_come_from_the_environment() {
    assert_eq!(worker_thread_count(None), 256);
    assert_eq!(worker_thread_count(Some("8")), 8);
    assert_eq!(worker_thread_count(Some("+8")), 8);
    for bad in ["0", "", "-1", "8 ", "x", "99999999999999999999"] {
        assert_eq!(worker_thread_count(Some(bad)), 256);
    }
    assert_eq!(pump_pool_size(None, 4), 32);
    assert_eq!(pump_pool_size(None, 64), 64);
    assert_eq!(pump_pool_size(Some("3"), 64), 3);
}

#[test]
fn slots_are_limited() {
    let mut slots = ConnSlots::new(2);
    assert!(slots.try_conn_slot() && slots.try_conn_slot());
    assert!(!slots.try_conn_slot());
    slots.release();
    assert!(slots.try_conn_slot());
    let mut one = ConnSlots::new(0);
    assert!(one.try_conn_slot() && !one.try_conn_slot());
}

#[test]
fn connections_go_round() {
    let mut d = Dispatcher::new(3);
    assert_eq!(d.begin(), DispatchStep::Try { worker: 0 });
    assert_eq!(d.after(SendResult::Sent), DispatchStep::Done);
    assert_eq!(d.begin(), DispatchStep::Try { worker: 1 });
    assert_eq!(d.after(SendResult::Full), DispatchStep::Try { worker: 2 });
    assert_eq!(d.after(SendResult::Full), DispatchStep::Try { worker: 0 });
    assert_eq!(d.after(SendResult::Full), DispatchStep::Shed);
    assert_eq!(d.begin(), DispatchStep::Try { worker: 1 });
    assert_eq!(d.after(SendResult::Full), DispatchStep::Try { worker: 2 });
    assert_eq!(d.after(SendResult::Sent), DispatchStep::Done);
    assert_eq!(d.begin(), DispatchStep::Try { worker: 0 });
    assert_eq!(d.after(SendResult::Disconnected), DispatchStep::Stop);
    assert_eq!(Dispatcher::new(0).begin(), DispatchStep::Shed);
}

#[test]
fn connections_follow_their_outcomes() {
    assert_eq!(after_admission(Ok(true)), ConnStep::ReadHead { holds_token: true });
    assert_eq!(after_admission(Err(ShedReason::BucketExhausted)), ConnStep::Unavailable);
    let id = RequestId { id: 4 };
    assert_eq!(
        after_route(&Ok(RoutePath::Disaggregated { prefill: 2, request_id: id, prompt_tokens: 9 })),
        ConnStep::Prefill { backend: 2, request_id: id, prompt_tokens: 9 }
    );
    assert_eq!(
        after_route(&Ok(RoutePath::DecodeOnly { backend: 1 })),
        ConnStep::Proxy { phase: Phase::Decode, backend: 1 }
    );
    assert_eq!(
        after_route(&Ok(RoutePath::Colocated { phase: Phase::Prefill, backend: 1 })),
        ConnStep::Proxy { phase: Phase::Prefill, backend: 1 }
    );
    assert_eq!(after_route(&Err(RouteError::NoBackend)), ConnStep::Unavailable);
    assert!(unavailable_response().starts_with("HTTP/1.1 503 "));
    assert!(prefill_response_fits(1_048_576) && !prefill_response_fits(1_048_577));
}

#[test]
fn plan_follows_the_environment() {
    let none = RouterPlan { bytes_per_token: 128, kv_capacity: None, state_plane: false };
    assert_eq!(router_plan(None, None, None), none);
    assert_eq!(router_plan(Some("0"), Some("x"), Some("no")), none);
    assert_eq!(
        router_plan(Some("64"), Some("67108864"), None),
        RouterPlan { bytes_per_token: 64, kv_capacity: Some(67108864), state_plane: true }
    );
    assert!(router_plan(None, None, Some("1")).state_plane);
    let pool = vec![Backend::new("pf", Real::from_bits(0.01f64.to_bits()))];
    assert_eq!(require_backends(&vec![], &vec![]), Err(ConfigError::NoBackends));
    assert_eq!(require_backends(&pool, &vec![]), Ok(()));
    assert_eq!(require_backends(&vec![], &pool), Ok(()));
    assert_eq!(pump_queue_len(4), 32);
    assert_eq!(pump_queue_len(256), 1024);
    assert_eq!(pump_queue_len(usize::MAX), usize::MAX);
}

#[test]
fn heads_are_read_to_the_blank_line_or_the_limit() {
    let mut r = HeadReader::new(100_000);
    assert_eq!(r.wanted(), Some(CHUNK));
    r.received(4, b"GET xyz");
    assert_eq!(r.wanted(), Some(CHUNK));
    r.received(4, b"\r\n\r\n");
    assert_eq!(r.wanted(), None);
    assert_eq!(r.into_head(), b"GET \r\n\r\n");
    let mut r = HeadReader::new(5);
    r.received(3, b"abc");
    assert_eq!(r.wanted(), Some(2));
    r.received(2, b"de");
    assert_eq!(r.wanted(), None);
    let mut r = HeadReader::new(5);
    r.received(1, b"a");
    r.received(-11, b"");
    assert_eq!(r.wanted(), None);
    assert_eq!(r.into_head(), b"a");
}

#[test]
fn copies_stop_at_the_limit() {
    let mut c = CopyLoop::new(CHUNK + 10);
    assert_eq!(c.next(), CopyStep::Read { len: CHUNK });
    assert_eq!(c.after_read(CHUNK as i32), CopyStep::Write { len: CHUNK });
    assert_eq!(c.after_write(CHUNK as i32), CopyStep::Read { len: 10 });
    assert_eq!(c.after_read(10), CopyStep::Write { len: 10 });
    assert_eq!(c.after_write(10), CopyStep::Done { total: CHUNK as u64 + 10 });
    let mut c = CopyLoop::new(100);
    assert_eq!(c.after_read(7), CopyStep::Write { len: 7 });
    assert_eq!(c.after_write(-32), CopyStep::Failed { code: -32 });
    let mut c = CopyLoop::new(100);
    c.after_read(7);
    c.after_write(7);
    assert_eq!(c.after_read(0), CopyStep::Done { total: 7 });
    assert_eq!(CopyLoop::new(0).next(), CopyStep::Done { total: 0 });
}
