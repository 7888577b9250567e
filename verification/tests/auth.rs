use demiurge::auth::{
    private_domain_key, CacheDomainKey, GroupId, PrefixFingerprint, SharedPrefixGroupRegistry,
    TenantId,
};
use demiurge::secret::{
    configure_auth_secret, configure_auth_secret_from_env, keyed_hash, AuthSecret,
};

fn dev_key() -> [u8; 32] {
    AuthSecret::new().auth_key(None)
}

fn registry() -> SharedPrefixGroupRegistry {
    let mut reg = SharedPrefixGroupRegistry::new();
    reg.register_template(
        GroupId::new(7),
        vec![TenantId::new(1), TenantId::new(2)],
        PrefixFingerprint::of(&dev_key(), b"shared system prompt"),
        42,
    );
    reg
}

#[test]
fn keyed_salt_differs_from_unmixed_layout() {
    let secret = dev_key();
    let key = CacheDomainKey { owner: 7, domain: 42, shared: true };
    assert_ne!(key.salt(&secret), 0);
    assert_eq!(
        PrefixFingerprint::of(&secret, b"shared system prompt"),
        PrefixFingerprint::of(&secret, b"shared system prompt")
    );
    assert_ne!(
        PrefixFingerprint::of(&secret, b"shared system prompt"),
        PrefixFingerprint::of(&secret, b"other prompt")
    );
}

#[test]
fn non_member_never_resolves_shared_key() {
    let reg = registry();
    let fp = PrefixFingerprint::of(&dev_key(), b"shared system prompt");
    assert!(reg.resolve_shared_key(TenantId::new(1), GroupId::new(7), fp).is_some());
    assert!(reg.resolve_shared_key(TenantId::new(99), GroupId::new(7), fp).is_none());
    assert!(reg.resolve_shared_key(TenantId::new(1), GroupId::new(8), fp).is_none());
}

#[test]
fn member_with_matching_template_resolves_shared_key() {
    let secret = dev_key();
    let reg = registry();
    let fp = PrefixFingerprint::of(&secret, b"shared system prompt");
    let k1 = reg.resolve_shared_key(TenantId::new(1), GroupId::new(7), fp).expect("member 1");
    let k2 = reg.resolve_shared_key(TenantId::new(2), GroupId::new(7), fp).expect("member 2");
    assert!(k1.shared && k2.shared);
    assert_eq!(k1.salt(&secret), k2.salt(&secret));
    assert_ne!(k1.salt(&secret), private_domain_key(TenantId::new(1), 0).salt(&secret));
}

#[test]
fn template_mismatch_no_shared_key() {
    let reg = registry();
    let wrong = PrefixFingerprint::of(&dev_key(), b"different prompt");
    assert!(reg.resolve_shared_key(TenantId::new(1), GroupId::new(7), wrong).is_none());
    assert!(!reg.matches_template(GroupId::new(7), wrong));
}

#[test]
fn non_member_isolated_under_fuzz() {
    let reg = registry();
    let good = PrefixFingerprint::of(&dev_key(), b"shared system prompt");
    let mut state: u64 = 0x9E3779B97F4A7C15;
    for _ in 0..50_000 {
        state = state.wrapping_mul(6364136223846793005).wrapping_add(1);
        let tenant = TenantId::new((state >> 33) % 200);
        let group = GroupId::new((state >> 20) % 16);
        let fp = if state & 1 == 0 { good } else { PrefixFingerprint::new(state) };
        if let Some(key) = reg.resolve_shared_key(tenant, group, fp) {
            assert!(reg.is_member(group, tenant));
            assert!(reg.matches_template(group, fp));
            assert!(key.shared);
        }
    }
}

#[test]
fn keyed_hash_stable_and_domain_separated() {
    let key = dev_key();
    let a = keyed_hash(&key, b"prefix-fp", b"hello");
    let b = keyed_hash(&key, b"prefix-fp", b"hello");
    let c = keyed_hash(&key, b"cache-domain-salt", b"hello");
    let d = keyed_hash(&key, b"prefix-fp", b"other");
    assert_eq!(a, b);
    assert_ne!(a, c);
    assert_ne!(a, d);
}

#[test]
fn keyed_hash_differs_from_plain_blake3() {
    let mut h = blake3::Hasher::new();
    h.update(b"prefix-fp");
    h.update(&[0]);
    h.update(b"hello");
    let plain = {
        let mut out = [0u8; 8];
        out.copy_from_slice(&h.finalize().as_bytes()[..8]);
        u64::from_le_bytes(out)
    };
    assert_ne!(keyed_hash(&dev_key(), b"prefix-fp", b"hello"), plain);
}

#[test]
fn keyed_hash_is_the_incremental_keyed_hash() {
    let key = blake3::derive_key(
        "demiurge auth 2026-07-17 keyed salt/fp v1",
        b"demiurge-unkeyed-dev-only",
    );
    assert_eq!(dev_key(), key);
    let mut h = blake3::Hasher::new_keyed(&key);
    h.update(b"prefix-fp");
    h.update(&[0]);
    h.update(b"hello");
    let mut out = [0u8; 8];
    out.copy_from_slice(&h.finalize().as_bytes()[..8]);
    assert_eq!(keyed_hash(&key, b"prefix-fp", b"hello"), u64::from_le_bytes(out));
}

#[test]
fn salt_hashes_owner_domain_and_flag() {
    let key = dev_key();
    let k = CacheDomainKey { owner: 0x0102030405060708, domain: 42, shared: true };
    let mut payload = Vec::new();
    payload.extend_from_slice(&0x0102030405060708u64.to_le_bytes());
    payload.extend_from_slice(&42u64.to_le_bytes());
    payload.push(1);
    assert_eq!(k.salt(&key), keyed_hash(&key, b"cache-domain-salt", &payload));
    let private = CacheDomainKey { shared: false, ..k };
    assert_ne!(k.salt(&key), private.salt(&key));
}

#[test]
fn first_secret_stays() {
    let mut s = AuthSecret::new();
    configure_auth_secret(&mut s, b"one".to_vec());
    configure_auth_secret(&mut s, b"two".to_vec());
    let mut only_one = AuthSecret::new();
    configure_auth_secret(&mut only_one, b"one".to_vec());
    assert_eq!(s.auth_key(Some(b"env")), only_one.auth_key(None));
    // A key in use is never replaced.
    let mut used = AuthSecret::new();
    let before = used.auth_key(Some(b"env"));
    configure_auth_secret(&mut used, b"late".to_vec());
    assert_eq!(used.auth_key(None), before);
    assert_ne!(before, dev_key());
}

#[test]
fn empty_environment_secret_is_ignored() {
    let mut s = AuthSecret::new();
    configure_auth_secret_from_env(&mut s, Some(Vec::new()));
    configure_auth_secret_from_env(&mut s, None);
    assert_eq!(s.auth_key(Some(b"")), dev_key());
    let mut t = AuthSecret::new();
    configure_auth_secret_from_env(&mut t, Some(b"env".to_vec()));
    assert_eq!(t.auth_key(None), AuthSecret::new().auth_key(Some(b"env")));
}

#[test]
fn registering_again_replaces_the_group() {
    let mut reg = registry();
    reg.register_template(
        GroupId::new(7),
        vec![TenantId::new(3)],
        PrefixFingerprint::new(5),
        1,
    );
    assert!(!reg.is_member(GroupId::new(7), TenantId::new(1)));
    let key = reg
        .resolve_domain_key(TenantId::new(3), GroupId::new(7), PrefixFingerprint::new(5));
    assert_eq!(key, CacheDomainKey { owner: 7, domain: 1, shared: true });
    let outsider = reg
        .resolve_domain_key(TenantId::new(1), GroupId::new(7), PrefixFingerprint::new(5));
    assert_eq!(outsider, private_domain_key(TenantId::new(1), 0));
}
