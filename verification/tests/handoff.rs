use std::time::Duration;

use demiurge::binary64::Real;
use demiurge::handoff::{
    handoff_transport_from_env, parse_prefill_handoff, ChosenTransport, HandoffDescriptor,
    HandoffRegistry, HandoffTransport, HeaderPassthroughTransport, KvHandle, MockRdmaTransport,
    ModeledRdmaTransport, DEFAULT_LATENCY_US,
};
use demiurge::ids::{IdSource, RequestId};
use demiurge::topology::{rdma_distance, rdma_transfer_seconds, TopologyId, TopologyMap};

fn f(x: Real) -> f64 {
    f64::from_bits(x.to_bits())
}

fn desc(request_id: u64, byte_len: u64) -> HandoffDescriptor {
    HandoffDescriptor {
        request_id,
        kv_handle: KvHandle::new(&mut IdSource::new()),
        byte_len,
        source_label: "pf0".to_string(),
        decode_label: None,
    }
}

#[test]
fn decode_waits_for_handoff() {
    let mut reg = HandoffRegistry::new();
    assert!(reg.get(1).is_none());
    reg.publish(desc(1, 4096));
    let h = reg.take(1).expect("handoff");
    assert!(h.is_valid());
    assert!(reg.get(1).is_none());
}

#[test]
fn invalid_handoffs_are_dropped() {
    let mut reg = HandoffRegistry::new();
    reg.publish(desc(1, 0));
    assert!(reg.get(1).is_none());
    reg.publish(desc(2, 10));
    reg.publish(desc(2, 20));
    assert_eq!(reg.get(2).map(|d| d.byte_len), Some(20));
    assert_eq!(reg.get(2), reg.take(2));
    assert!(reg.take(2).is_none());
}

#[test]
fn handoff_transfer_telemetry_p50_p99() {
    let mut reg = HandoffRegistry::new();
    for (bytes, us) in [(100_u64, 10_u64), (200, 20), (300, 30), (400, 40)] {
        reg.record_transfer(bytes, Duration::from_micros(us).as_nanos());
    }
    let m = reg.transfer_metrics();
    assert_eq!(m.count, 4);
    assert_eq!(m.bytes_p50, 300);
    assert_eq!(m.bytes_p99, 400);
    assert_eq!(m.wall_us_p50, 30);
    assert_eq!(m.wall_us_p99, 40);
}

#[test]
fn telemetry_is_bounded() {
    let mut reg = HandoffRegistry::new();
    assert_eq!(reg.transfer_metrics().count, 0);
    assert_eq!(reg.transfer_metrics().bytes_p99, 0);
    reg.record_transfer(0, 1);
    assert_eq!(reg.transfer_metrics().count, 0);
    for i in 0..1500u64 {
        reg.record_transfer(i + 1, u128::MAX);
    }
    let m = reg.transfer_metrics();
    assert_eq!((m.count, m.bytes_p50), (1024, 989));
    assert_eq!(m.wall_us_p50, u64::MAX);
}

#[test]
fn parse_handoff_headers() {
    let head = b"HTTP/1.1 200 OK\r\nx-demiurge-kv-handle: 42\r\nx-demiurge-kv-bytes: 8192\r\n\r\n";
    let d = parse_prefill_handoff(head, 7, "pf-a").expect("parsed");
    assert_eq!(d.request_id, 7);
    assert_eq!(d.kv_handle.raw(), 42);
    assert_eq!(d.byte_len, 8192);
    assert_eq!(d.source_label, "pf-a");
    assert_eq!(d.decode_label, None);
}

#[test]
fn parse_handoff_ignores_body_injected_headers() {
    let response = b"HTTP/1.1 200 OK\r\n\
x-demiurge-kv-handle: 42\r\n\
x-demiurge-kv-bytes: 8192\r\n\
\r\n\
x-demiurge-kv-handle: 99\r\n\
x-demiurge-kv-bytes: 999999999\r\n";
    let d = parse_prefill_handoff(response, 7, "pf-a").expect("parsed");
    assert_eq!(d.kv_handle.raw(), 42);
    assert_eq!(d.byte_len, 8192);
}

fn parsed(head: &[u8]) -> Option<(u64, u64)> {
    parse_prefill_handoff(head, 1, "pf").map(|d| (d.kv_handle.raw(), d.byte_len))
}

/// The same reading through the string functions of the standard library.
fn by_strings(response: &[u8]) -> Option<(u64, u64)> {
    let end = response
        .windows(4)
        .position(|w| w == b"\r\n\r\n")
        .map(|i| i + 4)
        .unwrap_or(response.len());
    let text = String::from_utf8_lossy(&response[..end]).into_owned();
    let mut handle: Option<u64> = None;
    let mut bytes: Option<u64> = None;
    for line in text.lines() {
        let lower = line.to_ascii_lowercase();
        if let Some(rest) = lower.strip_prefix("x-demiurge-kv-handle:") {
            handle = rest.trim().parse().ok().filter(|&h| h != 0);
        } else if let Some(rest) = lower.strip_prefix("x-demiurge-kv-bytes:") {
            bytes = rest.trim().parse().ok();
        }
    }
    Some((handle?, bytes?))
}

#[test]
fn handoff_headers_read_like_text() {
    let values: [&[u8]; 20] = [
        b" 42", b"42 ", b"+42", b" + 42", b"-42", b"0", b"", b" ", b"42x", b"4 2",
        b"18446744073709551615", b"18446744073709551616", b"\x0b42\x0c", b"\xc2\xa042\xe3\x80\x80",
        b"\xc2 42", b"\xe2\x80\xa842", b"42\xff", b"000042", b"\t42\t\r", b"+",
    ];
    for h in values {
        for b in values {
            for name in [&b"X-Demiurge-KV-Handle:"[..], b"x-demiurge-kv-handle:", b"x-demiurge-kv-handle :"] {
                let mut head = b"HTTP/1.1 200 OK\r\n".to_vec();
                head.extend_from_slice(name);
                head.extend_from_slice(h);
                head.extend_from_slice(b"\r\nx-demiurge-kv-bytes:");
                head.extend_from_slice(b);
                assert_eq!(parsed(&head), by_strings(&head), "{head:?}");
                head.extend_from_slice(b"\nX-DEMIURGE-KV-BYTES: 7\r\n\r\nx-demiurge-kv-bytes: 9\r\n");
                assert_eq!(parsed(&head), by_strings(&head), "{head:?}");
            }
        }
    }
}

#[test]
fn last_header_wins_even_if_unreadable() {
    assert_eq!(
        parsed(b"x-demiurge-kv-handle: 1\nx-demiurge-kv-bytes: 2\nx-demiurge-kv-bytes: 3\n"),
        Some((1, 3))
    );
    assert_eq!(
        parsed(b"x-demiurge-kv-handle: 1\nx-demiurge-kv-bytes: 2\nx-demiurge-kv-handle: no\n"),
        None
    );
}

#[test]
fn ids_are_drawn_in_order() {
    let mut ids = IdSource::new();
    assert_eq!(RequestId::new(&mut ids).raw(), 1);
    assert_eq!(RequestId::new(&mut ids).raw(), 2);
    assert_eq!(KvHandle::new(&mut ids).raw(), 3);
    assert!(KvHandle::from_raw(0).is_none());
    assert_eq!(KvHandle::from_raw(9).map(|h| h.raw()), Some(9));
}

#[test]
fn header_passthrough_uses_prefill_wall() {
    let t = HeaderPassthroughTransport;
    let wall = Duration::from_millis(12);
    let out = t.transfer(&desc(1, 8192), wall.as_nanos());
    assert_eq!(out.bytes, 8192);
    assert_eq!(out.wall_ns, wall.as_nanos());
}

#[test]
fn mock_rdma_fixed_latency() {
    let t = MockRdmaTransport::new(40);
    let out = t.transfer(&desc(1, 8192), Duration::from_millis(99).as_nanos());
    assert_eq!(out.bytes, 8192);
    assert_eq!(out.wall_ns, Duration::from_micros(40).as_nanos());
    assert_eq!(MockRdmaTransport::default().latency_us, DEFAULT_LATENCY_US);
    assert_eq!(DEFAULT_LATENCY_US, 50);
}

#[test]
fn modeled_rdma_transport_matches_analytic() {
    let mut topo = TopologyMap::new();
    topo.insert("pf0", TopologyId::new("n0", "r0", "cA"));
    topo.insert("dc1", TopologyId::new("n1", "r0", "cA"));
    let t = ModeledRdmaTransport::new(topo);
    let mut d = desc(1, 8192);
    d.source_label = "pf0".to_string();
    d.decode_label = Some("dc1".to_string());
    d.byte_len = 1_048_576;
    let out = t.transfer(&d, 0);
    let distance = rdma_distance(
        &TopologyId::new("n0", "r0", "cA"),
        &TopologyId::new("n1", "r0", "cA"),
    );
    let expected = f(rdma_transfer_seconds(d.byte_len, distance));
    let wall = Duration::from_nanos(out.wall_ns as u64);
    assert!((wall.as_secs_f64() - expected).abs() < 1e-9);
    assert_eq!(wall, Duration::from_secs_f64(expected));
    d.decode_label = None;
    let near = t.transfer(&d, 0);
    assert!(near.wall_ns < out.wall_ns);
}

#[test]
fn transport_is_chosen_by_the_environment() {
    let choose = |v: Option<&str>| handoff_transport_from_env(v, TopologyMap::new());
    assert!(matches!(choose(None), ChosenTransport::Tcp(_)));
    assert!(matches!(choose(Some("tcp")), ChosenTransport::Tcp(_)));
    assert!(matches!(choose(Some("Mock_RDMA")), ChosenTransport::Mock(t) if t.latency_us == 50));
    assert!(matches!(choose(Some("modeled_rdma")), ChosenTransport::Modeled(_)));
    let out = choose(Some("mock_rdma")).transfer(&desc(1, 7), 1);
    assert_eq!((out.bytes, out.wall_ns), (7, 50_000));
    let out = choose(Some("other")).transfer(&desc(1, 7), 1);
    assert_eq!((out.bytes, out.wall_ns), (7, 1));
    let out = choose(Some("modeled_rdma")).transfer(&desc(1, 0), 1);
    assert_eq!((out.bytes, out.wall_ns), (0, 2_000));
}

#[test]
fn transfer_cost_is_logged_in_one_line() {
    let mut reg = HandoffRegistry::new();
    assert_eq!(reg.log_transfer_cost("x"), None);
    reg.record_transfer(100, 10_000);
    reg.record_transfer(200, 20_999);
    assert_eq!(
        reg.log_transfer_cost("bench").as_deref(),
        Some("handoff-transfer: bench n=2 bytes p50/p99=200/200 wall_us p50/p99=20/20")
    );
}
