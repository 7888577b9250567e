use demiurge::admission::{
    admit_capacity_for_pi, AdmitBucket, AdmitMode, ShedReason, XdpAdmitConfig,
};
use demiurge::binary64::Real;
use demiurge::endian::ByteOrder;
use demiurge::netlink::{
    getlink_request, nla_align, parse_ack, parse_link_reply, parse_xdp_nested, parse_xdp_prog_id,
    push_nla_bytes, setlink_request, IFLA_XDP, IFLA_XDP_ATTACHED, IFLA_XDP_DRV_PROG_ID,
    IFLA_XDP_PROG_ID, IFLA_XDP_SKB_PROG_ID, NLA_F_NESTED, NLMSG_DONE, NLMSG_ERROR, RTM_NEWLINK,
    XDP_ATTACHED_NONE,
};
use demiurge::params::{DATAPLANE_ADMIT_BURST, DATAPLANE_ADMIT_REFILL_PER_SEC};
use demiurge::rcu::{DataPlaneSnapshot, IoUringForwarder, RcuRoutingTable};
use demiurge::xdp::{
    attach_sequence, available_tokens, detach_sequence, link_is_alive, reseed_admit_state,
    seed_admit_state, sum_admit_stats, xdp_detach_flags, AdmitMapStats, XdpAttachError,
    XDP_FLAGS_DRV_MODE, XDP_FLAGS_SKB_MODE,
};

fn host() -> ByteOrder {
    if 1u16.to_ne_bytes()[0] == 1 {
        ByteOrder::Little
    } else {
        ByteOrder::Big
    }
}

fn r(x: f64) -> Real {
    Real::from_bits(x.to_bits())
}

fn f(x: Real) -> f64 {
    f64::from_bits(x.to_bits())
}

#[test]
fn admit_bucket_sheds_when_exhausted() {
    let mut bucket = AdmitBucket::new(2);
    assert!(bucket.try_admit().is_ok());
    assert!(bucket.try_admit().is_ok());
    assert_eq!(bucket.try_admit(), Err(ShedReason::BucketExhausted));
    assert_eq!(bucket.shed_total(), 1);
    bucket.release(1);
    assert!(bucket.try_admit().is_ok());
    assert_eq!(ShedReason::BucketExhausted.message(), "admit bucket exhausted");
}

#[test]
fn admit_bucket_invariants_report() {
    for cap in [1u64, 2, 7, 500, 4095] {
        for admits in [0u32, 1, 17, 255] {
            for releases in [0u32, 3, 255] {
                let mut bucket = AdmitBucket::new(cap);
                let mut held = 0u64;
                for _ in 0..admits {
                    if bucket.try_admit().is_ok() {
                        held += 1;
                    }
                }
                assert!(bucket.available() + held <= cap);
                assert!(bucket.available() <= cap);
                for _ in 0..releases {
                    bucket.release(1);
                }
                assert!(bucket.available() <= cap);
                let reseed = (cap / 2).max(1);
                bucket.reseed(reseed);
                assert_eq!(bucket.capacity(), reseed);
                assert_eq!(bucket.available(), reseed);
            }
        }
    }
}

#[test]
fn bpf_admit_model_report() {
    // The kernel takes first and gives back when there was nothing: same outcomes as the bucket.
    for cap in [1u64, 5, 100] {
        let mut bucket = AdmitBucket::new(cap);
        let (mut tokens, mut shed) = (cap as i64, 0u64);
        for _ in 0..128 {
            let prev = tokens;
            tokens -= 1;
            let kernel_ok = prev > 0;
            if !kernel_ok {
                tokens += 1;
                shed += 1;
            }
            assert_eq!(bucket.try_admit().is_ok(), kernel_ok);
        }
        assert_eq!(bucket.shed_total(), shed);
        assert_eq!(bucket.available(), tokens as u64);
    }
}

#[test]
fn xdp_admit_config_defaults_from_params() {
    let cfg = XdpAdmitConfig::default();
    assert_eq!(cfg.capacity, DATAPLANE_ADMIT_BURST);
    assert_eq!(cfg.refill_per_sec, DATAPLANE_ADMIT_REFILL_PER_SEC);
    assert_eq!(cfg.listen_port, None);
    assert_eq!(XdpAdmitConfig::with_capacity(8).capacity, 8);
}

#[test]
fn admission_modes_are_read_in_any_case() {
    for (text, mode) in [
        ("userspace", Some(AdmitMode::Userspace)),
        (" USER\t", Some(AdmitMode::Userspace)),
        ("bucket", Some(AdmitMode::Userspace)),
        ("xdp", Some(AdmitMode::KernelXdp)),
        ("Kernel", Some(AdmitMode::KernelXdp)),
        ("kernel_xdp", Some(AdmitMode::KernelXdp)),
        ("\u{3000}hybrid\u{a0}", Some(AdmitMode::Hybrid)),
        ("", None),
        ("kernelxdp", None),
        ("hybr\u{131}d", None),
    ] {
        assert_eq!(AdmitMode::parse(text), mode, "{text:?}");
    }
    assert_eq!(AdmitMode::from_env(None), AdmitMode::Userspace);
    assert_eq!(AdmitMode::from_env(Some("nonsense")), AdmitMode::Userspace);
    assert_eq!(AdmitMode::from_env(Some("xdp")), AdmitMode::KernelXdp);
    assert_eq!(AdmitMode::default(), AdmitMode::Userspace);
}

#[test]
fn bucket_takes_over_where_the_kernel_is_not_attached() {
    for attached in [false, true] {
        assert!(AdmitMode::Userspace.uses_userspace_admit(attached));
        assert_eq!(AdmitMode::KernelXdp.uses_userspace_admit(attached), !attached);
        assert_eq!(AdmitMode::Hybrid.uses_userspace_admit(attached), !attached);
    }
    assert!(!AdmitMode::Userspace.wants_kernel());
    assert!(AdmitMode::KernelXdp.wants_kernel() && AdmitMode::Hybrid.wants_kernel());
}

#[test]
fn burst_scales_with_the_share() {
    assert_eq!(admit_capacity_for_pi(4096, r(0.5)), 2048);
    assert_eq!(admit_capacity_for_pi(4096, r(0.0)), (4096.0f64 * 0.1).round() as u64);
    assert_eq!(admit_capacity_for_pi(5, r(0.5)), 3);
    assert_eq!(admit_capacity_for_pi(0, r(1.0)), 1);
    assert_eq!(admit_capacity_for_pi(100, r(f64::NAN)), 1);
}

#[test]
fn forwarder_reads_rcu_without_blocking() {
    let rcu = RcuRoutingTable::new(r(0.42), 0);
    let fwd = IoUringForwarder::new(&rcu);
    let d = fwd.forward_decision();
    assert!((f(d.pi) - 0.42).abs() < f64::EPSILON);
    assert_eq!(d.generation, 0);
}

#[test]
fn rcu_hot_read_under_cp_stall() {
    let table = RcuRoutingTable::new(r(0.5), 0);
    let start = std::time::Instant::now();
    for _ in 0..10_000 {
        std::hint::black_box(table.read_pi());
    }
    let elapsed = start.elapsed();
    assert!(
        elapsed < std::time::Duration::from_millis(50),
        "RCU read loop took {:?}, expected sub-ms hot path",
        elapsed
    );
}

#[test]
fn readers_see_what_was_published_last() {
    let mut table = RcuRoutingTable::new(r(7.0), 100);
    assert_eq!(f(table.read_pi()), 1.0);
    let before = table.read();
    for generation in 1..=256u64 {
        table.publish_pi(generation, r(generation as f64 / 512.0), 100 + generation);
        assert_eq!(table.generation(), generation);
        assert_eq!(f(table.read().pi), generation as f64 / 512.0);
    }
    // A snapshot that was read stays what it was.
    assert_eq!((before.generation, f(before.pi)), (0, 1.0));
    table.publish(DataPlaneSnapshot { generation: 9, pi: r(0.25), published_at_ms: 1000 });
    assert_eq!((table.generation(), f(table.read_pi())), (9, 0.25));
    assert_eq!(table.age_ms(1500), 500);
    assert_eq!(table.age_ms(10), 0);
    assert!(!table.is_stale(1500, 500) && table.is_stale(1501, 500));
}

#[test]
fn parse_xdp_nested_reads_skb_prog_id() {
    let mut nested = Vec::new();
    push_nla_bytes(&mut nested, host(), IFLA_XDP_ATTACHED, &[2]);
    push_nla_bytes(&mut nested, host(), IFLA_XDP_SKB_PROG_ID, &42u32.to_ne_bytes());
    assert_eq!(parse_xdp_nested(host(), &nested), Some(42));
}

#[test]
fn parse_xdp_nested_none_when_detached() {
    let mut nested = Vec::new();
    push_nla_bytes(&mut nested, host(), IFLA_XDP_ATTACHED, &[XDP_ATTACHED_NONE]);
    push_nla_bytes(&mut nested, host(), IFLA_XDP_PROG_ID, &99u32.to_ne_bytes());
    assert_eq!(parse_xdp_nested(host(), &nested), None);
}

#[test]
fn first_program_id_that_is_set_counts() {
    for order in [ByteOrder::Little, ByteOrder::Big] {
        let word = |n: u32| match order {
            ByteOrder::Little => n.to_le_bytes(),
            ByteOrder::Big => n.to_be_bytes(),
        };
        let mut nested = Vec::new();
        push_nla_bytes(&mut nested, order, IFLA_XDP_ATTACHED, &[1]);
        push_nla_bytes(&mut nested, order, IFLA_XDP_PROG_ID, &word(0));
        push_nla_bytes(&mut nested, order, IFLA_XDP_SKB_PROG_ID, &word(6));
        push_nla_bytes(&mut nested, order, IFLA_XDP_DRV_PROG_ID, &word(0x01020304));
        assert_eq!(parse_xdp_nested(order, &nested), Some(0x01020304));
        assert_eq!(nested.len(), 32);
        let mut attrs = Vec::new();
        push_nla_bytes(&mut attrs, order, 3, b"eth0\0");
        push_nla_bytes(&mut attrs, order, IFLA_XDP + NLA_F_NESTED, &nested);
        assert_eq!(parse_xdp_prog_id(order, &attrs), Some(0x01020304));
        // An attribute that claims more bytes than there are ends the list.
        attrs.truncate(attrs.len() - 1);
        assert_eq!(parse_xdp_prog_id(order, &attrs), None);
    }
    assert_eq!(parse_xdp_nested(host(), &[]), None);
    assert_eq!((nla_align(0), nla_align(1), nla_align(4), nla_align(5)), (0, 4, 4, 8));
}

#[test]
fn requests_have_the_layout_of_the_kernel() {
    let q = getlink_request(ByteOrder::Little, 3);
    let mut want = vec![32, 0, 0, 0, 18, 0, 1, 0, 1, 0, 0, 0, 0, 0, 0, 0];
    want.extend_from_slice(&[0, 0, 0, 0, 3, 0, 0, 0, 0, 0, 0, 0, 0, 0, 0, 0]);
    assert_eq!(q, want);
    let s = setlink_request(ByteOrder::Little, 3, None, XDP_FLAGS_SKB_MODE);
    assert_eq!(s.len(), 52);
    assert_eq!(&s[..8], &[52, 0, 0, 0, 19, 0, 5, 0]);
    assert_eq!(&s[32..36], &[20, 0, 43, 0x80]);
    assert_eq!(&s[36..44], &[8, 0, 1, 0, 0xff, 0xff, 0xff, 0xff]);
    assert_eq!(&s[44..52], &[8, 0, 3, 0, 2, 0, 0, 0]);
    let a = setlink_request(ByteOrder::Big, -2, Some(7), 0);
    assert_eq!(a.len(), 44);
    assert_eq!(&a[20..24], &[0xff, 0xff, 0xff, 0xfe]);
    assert_eq!(&a[36..44], &[0, 8, 0, 1, 0, 0, 0, 7]);
}

fn message(kind: u16, payload: &[u8]) -> Vec<u8> {
    let mut m = (16 + payload.len() as u32).to_le_bytes().to_vec();
    m.extend_from_slice(&kind.to_le_bytes());
    m.extend_from_slice(&[0; 10]);
    m.extend_from_slice(payload);
    while m.len() % 4 != 0 {
        m.push(0);
    }
    m
}

#[test]
fn replies_are_read_message_by_message() {
    let le = ByteOrder::Little;
    assert_eq!(parse_ack(le, &message(NLMSG_ERROR, &0i32.to_le_bytes())), Ok(()));
    assert_eq!(parse_ack(le, &message(NLMSG_ERROR, &(-19i32).to_le_bytes())), Err(-19));
    assert_eq!(parse_ack(le, &message(RTM_NEWLINK, &(-19i32).to_le_bytes())), Ok(()));
    assert_eq!(parse_ack(le, b"short"), Ok(()));
    let mut nested = Vec::new();
    push_nla_bytes(&mut nested, le, IFLA_XDP_ATTACHED, &[1]);
    push_nla_bytes(&mut nested, le, IFLA_XDP_PROG_ID, &77u32.to_le_bytes());
    let mut link = vec![0u8; 16];
    push_nla_bytes(&mut link, le, IFLA_XDP, &nested);
    let newlink = message(RTM_NEWLINK, &link);
    assert_eq!(parse_link_reply(le, &newlink), Ok(Some(77)));
    let mut reply = message(NLMSG_ERROR, &0i32.to_le_bytes());
    reply.extend_from_slice(&message(99, b"?"));
    reply.extend_from_slice(&newlink);
    assert_eq!(parse_link_reply(le, &reply), Ok(Some(77)));
    let mut done = message(NLMSG_DONE, &[]);
    done.extend_from_slice(&newlink);
    assert_eq!(parse_link_reply(le, &done), Ok(None));
    assert_eq!(parse_link_reply(le, &message(NLMSG_ERROR, &(-1i32).to_le_bytes())), Err(-1));
    assert_eq!(parse_link_reply(le, &newlink[..newlink.len() - 1]), Ok(None));
    assert_eq!(parse_link_reply(le, &message(RTM_NEWLINK, &[0; 16])), Ok(None));
}

#[test]
fn kernel_bucket_is_seeded_and_refilled() {
    let cfg = XdpAdmitConfig { capacity: 0, refill_per_sec: 5, listen_port: Some(8080) };
    let s = seed_admit_state(&cfg, 11);
    assert_eq!((s.tokens, s.capacity, s.refill_per_sec), (1, 1, 5));
    assert_eq!((s.last_refill_ns, s.listen_port), (11, 8080));
    let t = reseed_admit_state(s, 64, 22);
    assert_eq!((t.tokens, t.capacity, t.last_refill_ns), (64, 64, 22));
    assert_eq!((t.refill_per_sec, t.listen_port), (5, 8080));
    let big = reseed_admit_state(s, u64::MAX, 0);
    assert_eq!((big.tokens, available_tokens(&big)), (-1, 0));
    assert_eq!(available_tokens(&t), 64);
    let cpus = vec![
        AdmitMapStats { shed_total: 1, pass_total: 10 },
        AdmitMapStats { shed_total: 2, pass_total: 20 },
    ];
    assert_eq!(sum_admit_stats(&cpus), Some(AdmitMapStats { shed_total: 3, pass_total: 30 }));
    let over = vec![AdmitMapStats { shed_total: u64::MAX, pass_total: 0 }; 2];
    assert_eq!(sum_admit_stats(&over), None);
}

#[test]
fn attach_and_detach_orders() {
    assert_eq!(xdp_detach_flags("skb"), XDP_FLAGS_SKB_MODE);
    assert_eq!(xdp_detach_flags("skb-fallback"), XDP_FLAGS_SKB_MODE);
    assert_eq!(xdp_detach_flags("driver"), XDP_FLAGS_DRV_MODE);
    assert_eq!(detach_sequence("driver"), (XDP_FLAGS_DRV_MODE, XDP_FLAGS_SKB_MODE));
    assert_eq!(detach_sequence("skb"), (XDP_FLAGS_SKB_MODE, XDP_FLAGS_DRV_MODE));
    let forced = attach_sequence(Some("SKB"));
    assert_eq!(forced.len(), 1);
    assert_eq!((forced[0].flags, forced[0].mode), (XDP_FLAGS_SKB_MODE, "skb"));
    let free = attach_sequence(Some("drv"));
    assert_eq!((free[0].flags, free[0].mode), (0, "driver"));
    assert_eq!((free[1].flags, free[1].mode), (XDP_FLAGS_SKB_MODE, "skb-fallback"));
    assert!(link_is_alive(0, Ok(Some(5))) && link_is_alive(5, Ok(Some(5))));
    assert!(!link_is_alive(5, Ok(Some(6))) && !link_is_alive(5, Ok(None)));
    assert!(!link_is_alive(0, Ok(Some(0))) && !link_is_alive(0, Err(-19)));
}

#[test]
fn attach_errors_explain_themselves() {
    assert_eq!(XdpAttachError::UnsupportedPlatform.message(), "XDP attach requires Linux");
    assert_eq!(
        XdpAttachError::ObjectNotBuilt.message(),
        "missing BPF object (xdp_admit_shed); run ./scripts/build-bpf.sh"
    );
    assert_eq!(XdpAttachError::LoadFailed("x".to_string()).message(), "x");
    assert_eq!(XdpAttachError::AttachFailed("y".to_string()).message(), "y");
}

#[test]
fn bucket_admits_exactly_its_tokens() {
    let mut bucket = AdmitBucket::new(16);
    let admitted = (0..100).filter(|_| bucket.try_admit().is_ok()).count();
    assert_eq!((admitted, bucket.available(), bucket.shed_total()), (16, 0, 84));
}

#[test]
fn returned_tokens_never_exceed_the_capacity() {
    let mut bucket = AdmitBucket::new(4);
    assert!(bucket.try_admit().is_ok());
    bucket.release(u64::MAX);
    assert_eq!(bucket.available(), 4);
}
