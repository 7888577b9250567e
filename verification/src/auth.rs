//! Authorization of shared prefix caches.
//!
//! Cross-tenant reuse of a prefix cache is opt-in: members of a group that present the group's
//! registered content resolve to one shared key; everyone else gets a key of their own. Someone
//! outside the group never resolves to the shared key.

use vstd::prelude::*;
use std::collections::{HashMap, HashSet};
use crate::bytes::{ascii, ascii_bytes};
use crate::endian::{
    byte_range, le_bytes, lemma_le_bytes_injective, lemma_le_bytes_len, push_u64_le,
};
use crate::secret::{keyed_hash, keyed_hash_of};

verus! {

broadcast use vstd::std_specs::hash::group_hash_axioms;

/// A tenant, already authenticated at the edge.
#[derive(Debug, Clone, Copy, PartialEq, Eq, Hash, Structural)]
pub struct TenantId {
    id: u64,
}

impl TenantId {
    pub closed spec fn spec_raw(self) -> u64 {
        self.id
    }

    pub fn new(raw: u64) -> (r: TenantId)
        ensures
            r.spec_raw() == raw,
    {
        TenantId { id: raw }
    }

    #[verifier::when_used_as_spec(spec_raw)]
    pub fn raw(self) -> (r: u64)
        ensures
            r == self.spec_raw(),
    {
        self.id
    }
}

/// A shared-prefix group.
#[derive(Debug, Clone, Copy, PartialEq, Eq, Hash, Structural)]
pub struct GroupId {
    id: u64,
}

impl GroupId {
    pub closed spec fn spec_raw(self) -> u64 {
        self.id
    }

    pub fn new(raw: u64) -> (r: GroupId)
        ensures
            r.spec_raw() == raw,
    {
        GroupId { id: raw }
    }

    #[verifier::when_used_as_spec(spec_raw)]
    pub fn raw(self) -> (r: u64)
        ensures
            r == self.spec_raw(),
    {
        self.id
    }
}

/// Fingerprint of a prefix, such as a system prompt.
#[derive(Debug, Clone, Copy, PartialEq, Eq, Hash, Structural)]
pub struct PrefixFingerprint {
    fp: u64,
}

impl PrefixFingerprint {
    pub closed spec fn spec_raw(self) -> u64 {
        self.fp
    }

    pub fn new(raw: u64) -> (r: PrefixFingerprint)
        ensures
            r.spec_raw() == raw,
    {
        PrefixFingerprint { fp: raw }
    }

    /// Fingerprints prefix bytes under the deployment key.
    pub fn of(key: &[u8; 32], bytes: &[u8]) -> (r: PrefixFingerprint)
        ensures
            r.spec_raw() == keyed_hash_of(key@, ascii("prefix-fp"@), bytes@),
    {
        proof {
            reveal_strlit("prefix-fp");
        }
        PrefixFingerprint { fp: keyed_hash(key, ascii_bytes("prefix-fp"), bytes) }
    }

    #[verifier::when_used_as_spec(spec_raw)]
    pub fn raw(self) -> (r: u64)
        ensures
            r == self.spec_raw(),
    {
        self.fp
    }
}

/// Key of a cache domain. A shared key is the same for every member of its group, a private one
/// belongs to one tenant.
#[derive(Debug, Clone, Copy, PartialEq, Eq, Hash, Structural)]
pub struct CacheDomainKey {
    /// Group when `shared`, tenant otherwise.
    pub owner: u64,
    pub domain: u64,
    pub shared: bool,
}

/// The bytes a key is hashed as: owner and domain little-endian, then the shared flag.
pub open spec fn salt_payload(k: CacheDomainKey) -> Seq<u8> {
    le_bytes(k.owner as nat, 8) + le_bytes(k.domain as nat, 8) + seq![
        if k.shared {
            1u8
        } else {
            0u8
        },
    ]
}

/// The salt of a key under a deployment key.
pub open spec fn salt_of(key: Seq<u8>, k: CacheDomainKey) -> u64 {
    keyed_hash_of(key, ascii("cache-domain-salt"@), salt_payload(k))
}

impl CacheDomainKey {
    /// Salt mixed into the block ids of a warmth lookup under the deployment key.
    pub fn salt(&self, key: &[u8; 32]) -> (r: u64)
        ensures
            r == salt_of(key@, *self),
    {
        let mut payload: Vec<u8> = Vec::new();
        push_u64_le(&mut payload, self.owner);
        push_u64_le(&mut payload, self.domain);
        payload.push(
            if self.shared {
                1
            } else {
                0
            },
        );
        assert(payload@ =~= salt_payload(*self));
        proof {
            reveal_strlit("cache-domain-salt");
        }
        keyed_hash(key, ascii_bytes("cache-domain-salt"), payload.as_slice())
    }
}

/// Different keys are hashed as different bytes, so domains alias only if the hash collides.
pub proof fn salt_payload_is_injective(a: CacheDomainKey, b: CacheDomainKey)
    requires
        salt_payload(a) == salt_payload(b),
    ensures
        a == b,
{
    lemma_le_bytes_len(a.owner as nat, 8);
    lemma_le_bytes_len(a.domain as nat, 8);
    lemma_le_bytes_len(b.owner as nat, 8);
    lemma_le_bytes_len(b.domain as nat, 8);
    reveal_with_fuel(byte_range, 9);
    let p = salt_payload(a);
    let q = salt_payload(b);
    assert(p.take(8) =~= le_bytes(a.owner as nat, 8));
    assert(q.take(8) =~= le_bytes(b.owner as nat, 8));
    assert(p.subrange(8, 16) =~= le_bytes(a.domain as nat, 8));
    assert(q.subrange(8, 16) =~= le_bytes(b.domain as nat, 8));
    lemma_le_bytes_injective(a.owner as nat, b.owner as nat, 8);
    lemma_le_bytes_injective(a.domain as nat, b.domain as nat, 8);
    assert(p[16] == q[16]);
}

/// The key only this tenant can resolve to.
pub open spec fn private_key(tenant: TenantId, domain: u64) -> CacheDomainKey {
    CacheDomainKey { owner: tenant.spec_raw(), domain, shared: false }
}

/// A tenant's own cache-domain key.
#[must_use]
pub fn private_domain_key(tenant: TenantId, domain: u64) -> (r: CacheDomainKey)
    ensures
        r == private_key(tenant, domain),
{
    CacheDomainKey { owner: tenant.raw(), domain, shared: false }
}

/// A registered group, as the contracts see it.
pub struct Group {
    pub members: Set<u64>,
    pub template: PrefixFingerprint,
    pub domain: u64,
}

#[derive(Debug)]
struct GroupEntry {
    members: HashSet<u64>,
    template: PrefixFingerprint,
    domain: u64,
}

impl View for GroupEntry {
    type V = Group;

    closed spec fn view(&self) -> Group {
        Group { members: self.members@, template: self.template, domain: self.domain }
    }
}

/// The key shared by a group, if the tenant is a member and presents the registered content.
pub open spec fn shared_key(
    groups: Map<u64, Group>,
    tenant: TenantId,
    group: GroupId,
    content: PrefixFingerprint,
) -> Option<CacheDomainKey> {
    let g = group.spec_raw();
    if groups.contains_key(g) && groups[g].members.contains(tenant.spec_raw())
        && groups[g].template == content {
        Some(CacheDomainKey { owner: g, domain: groups[g].domain, shared: true })
    } else {
        None
    }
}

/// The key a request resolves to.
pub open spec fn domain_key(
    groups: Map<u64, Group>,
    tenant: TenantId,
    group: GroupId,
    content: PrefixFingerprint,
) -> CacheDomainKey {
    match shared_key(groups, tenant, group, content) {
        Some(k) => k,
        None => private_key(tenant, 0),
    }
}

/// The one authority on groups, their members and their content.
#[derive(Debug)]
pub struct SharedPrefixGroupRegistry {
    groups: HashMap<u64, GroupEntry>,
}

impl View for SharedPrefixGroupRegistry {
    type V = Map<u64, Group>;

    closed spec fn view(&self) -> Map<u64, Group> {
        self.groups@.map_values(|g: GroupEntry| g@)
    }
}

/// The raw ids of a list of tenants.
pub open spec fn tenant_ids(tenants: Seq<TenantId>) -> Set<u64> {
    tenants.map_values(|t: TenantId| t.spec_raw()).to_set()
}

impl SharedPrefixGroupRegistry {
    /// A registry without groups.
    #[must_use]
    pub fn new() -> (r: SharedPrefixGroupRegistry)
        ensures
            r@ == Map::<u64, Group>::empty(),
    {
        let r = SharedPrefixGroupRegistry { groups: HashMap::new() };
        assert(r@ =~= Map::<u64, Group>::empty());
        r
    }

    /// Registers a group, replacing what was registered for it before.
    pub fn register_template(
        &mut self,
        group: GroupId,
        members: Vec<TenantId>,
        template: PrefixFingerprint,
        domain: u64,
    )
        ensures
            final(self)@ == old(self)@.insert(
                group.spec_raw(),
                Group { members: tenant_ids(members@), template, domain },
            ),
    {
        let ghost ids = members@.map_values(|t: TenantId| t.spec_raw());
        let mut set: HashSet<u64> = HashSet::new();
        let n: usize = members.len();
        assert(ids.take(0).to_set() =~= Set::<u64>::empty());
        for i in 0..n
            invariant
                n == members@.len(),
                ids == members@.map_values(|t: TenantId| t.spec_raw()),
                set@ == ids.take(i as int).to_set(),
        {
            assert(ids.take(i + 1) =~= ids.take(i as int).push(ids[i as int]));
            proof {
                ids.take(i as int).lemma_push_to_set_commute(ids[i as int]);
            }
            set.insert(members[i].raw());
        }
        assert(ids.take(n as int) =~= ids);
        let entry = GroupEntry { members: set, template, domain };
        self.groups.insert(group.raw(), entry);
        assert(self@ =~= old(self)@.insert(
            group.spec_raw(),
            Group { members: tenant_ids(members@), template, domain },
        ));
    }

    /// Whether the tenant belongs to the group.
    #[must_use]
    pub fn is_member(&self, group: GroupId, tenant: TenantId) -> (r: bool)
        ensures
            r == (self@.contains_key(group.spec_raw()) && self@[group.spec_raw()].members.contains(
                tenant.spec_raw(),
            )),
    {
        match self.groups.get(&group.raw()) {
            Some(g) => g.members.contains(&tenant.raw()),
            None => false,
        }
    }

    /// Whether the content is what was registered for the group.
    #[must_use]
    pub fn matches_template(&self, group: GroupId, fp: PrefixFingerprint) -> (r: bool)
        ensures
            r == (self@.contains_key(group.spec_raw()) && self@[group.spec_raw()].template == fp),
    {
        match self.groups.get(&group.raw()) {
            Some(g) => g.template == fp,
            None => false,
        }
    }

    /// The shared key of a group, for a member that presents the registered content.
    #[must_use]
    pub fn resolve_shared_key(
        &self,
        requester: TenantId,
        group: GroupId,
        content_fp: PrefixFingerprint,
    ) -> (r: Option<CacheDomainKey>)
        ensures
            r == shared_key(self@, requester, group, content_fp),
    {
        match self.groups.get(&group.raw()) {
            Some(entry) => {
                if !entry.members.contains(&requester.raw()) {
                    return None;
                }
                if entry.template != content_fp {
                    return None;
                }
                Some(
                    CacheDomainKey { owner: group.raw(), domain: entry.domain, shared: true },
                )
            },
            None => None,
        }
    }

    /// The key of a request: the shared one when authorized, else the tenant's own.
    #[must_use]
    pub fn resolve_domain_key(
        &self,
        requester: TenantId,
        group: GroupId,
        content_fp: PrefixFingerprint,
    ) -> (r: CacheDomainKey)
        ensures
            r == domain_key(self@, requester, group, content_fp),
    {
        match self.resolve_shared_key(requester, group, content_fp) {
            Some(k) => k,
            None => private_domain_key(requester, 0),
        }
    }
}

impl Default for SharedPrefixGroupRegistry {
    fn default() -> (r: SharedPrefixGroupRegistry)
        ensures
            r@ == Map::<u64, Group>::empty(),
    {
        SharedPrefixGroupRegistry::new()
    }
}

/// Someone outside the group never resolves to a shared key, whatever content they present.
pub proof fn outsiders_never_share(
    groups: Map<u64, Group>,
    tenant: TenantId,
    group: GroupId,
    content: PrefixFingerprint,
)
    requires
        !(groups.contains_key(group.spec_raw()) && groups[group.spec_raw()].members.contains(
            tenant.spec_raw(),
        )),
    ensures
        shared_key(groups, tenant, group, content) is None,
        !domain_key(groups, tenant, group, content).shared,
        domain_key(groups, tenant, group, content).owner == tenant.spec_raw(),
{
}

/// A member with other content than the registered one does not share either.
pub proof fn wrong_content_never_shares(
    groups: Map<u64, Group>,
    tenant: TenantId,
    group: GroupId,
    content: PrefixFingerprint,
)
    requires
        groups.contains_key(group.spec_raw()) ==> groups[group.spec_raw()].template != content,
    ensures
        shared_key(groups, tenant, group, content) is None,
        domain_key(groups, tenant, group, content) == private_key(tenant, 0),
{
}

/// All members that present the registered content resolve to one key with one salt.
pub proof fn members_share_one_key(
    groups: Map<u64, Group>,
    a: TenantId,
    b: TenantId,
    group: GroupId,
    key: Seq<u8>,
)
    requires
        groups.contains_key(group.spec_raw()),
        groups[group.spec_raw()].members.contains(a.spec_raw()),
        groups[group.spec_raw()].members.contains(b.spec_raw()),
    ensures
        ({
            let content = groups[group.spec_raw()].template;
            &&& domain_key(groups, a, group, content).shared
            &&& domain_key(groups, a, group, content) == domain_key(groups, b, group, content)
            &&& salt_of(key, domain_key(groups, a, group, content)) == salt_of(
                key,
                domain_key(groups, b, group, content),
            )
        }),
{
}

/// Two tenants' own keys differ, and neither is any group's shared key.
pub proof fn private_keys_are_isolated(
    groups: Map<u64, Group>,
    a: TenantId,
    b: TenantId,
    group: GroupId,
    content: PrefixFingerprint,
    domain: u64,
)
    requires
        a.spec_raw() != b.spec_raw(),
    ensures
        private_key(a, domain) != private_key(b, domain),
        shared_key(groups, b, group, content) != Some(private_key(a, domain)),
{
}

} // verus!
