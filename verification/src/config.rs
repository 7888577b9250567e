//! Pool, topology and cache-group specifications.

use vstd::prelude::*;
use vstd::string::*;
use vstd::utf8::encode_utf8;
use crate::auth::{Group, GroupId, PrefixFingerprint, SharedPrefixGroupRegistry, TenantId};
use crate::backend::Backend;
use crate::bytes::{parse_whole, whole_number};
use crate::http::{number, parse_u64_maybe_hex};
use crate::ledger::label_view;
use crate::params::POOL_ACTUATION_ENABLED;
use crate::text::{items, lemma_until, list_items, same_text, split, split_text, until, views};
use crate::topology::{Place, TopologyId, TopologyMap};

verus! {

/// What is wrong with a specification.
#[derive(Debug, PartialEq, Eq)]
pub enum ConfigError {
    /// Not `label@node/rack/cluster`.
    TopologySpec { item: String },
    /// Not `label@host:port@seconds`.
    BackendSpec { item: String },
    /// Not `group@domain@template_fp@tenant1+tenant2`.
    CacheGroupSpec { item: String },
    /// A field that is no number.
    CacheGroupField { name: String, raw: String, item: String },
    /// A group without tenants.
    CacheGroupTenants { item: String },
    /// Neither pool has a backend.
    NoBackends,
}

/// What is wrong with a specification, as the contracts see it.
pub enum Flaw {
    TopologySpec { item: Seq<char> },
    BackendSpec { item: Seq<char> },
    CacheGroupSpec { item: Seq<char> },
    CacheGroupField { name: Seq<char>, raw: Seq<char>, item: Seq<char> },
    CacheGroupTenants { item: Seq<char> },
    NoBackends,
}

impl View for ConfigError {
    type V = Flaw;

    open spec fn view(&self) -> Flaw {
        match *self {
            ConfigError::TopologySpec { item } => Flaw::TopologySpec { item: item@ },
            ConfigError::BackendSpec { item } => Flaw::BackendSpec { item: item@ },
            ConfigError::CacheGroupSpec { item } => Flaw::CacheGroupSpec { item: item@ },
            ConfigError::CacheGroupField { name, raw, item } => Flaw::CacheGroupField {
                name: name@,
                raw: raw@,
                item: item@,
            },
            ConfigError::CacheGroupTenants { item } => Flaw::CacheGroupTenants { item: item@ },
            ConfigError::NoBackends => Flaw::NoBackends,
        }
    }
}

/// `label@node/rack/cluster`.
pub open spec fn topology_item(item: Seq<char>) -> Option<(Seq<char>, Place)> {
    let at = until(item, '@');
    let parts = split(item.skip(at as int + 1), '/');
    if at < item.len() && parts.len() == 3 {
        Some((item.take(at as int), Place { node: parts[0], rack: parts[1], cluster: parts[2] }))
    } else {
        None
    }
}

/// All items in order; the first bad one is the flaw, and the last one for a label counts.
pub open spec fn topology_items(list: Seq<Seq<char>>) -> Result<Map<Seq<char>, Place>, Flaw>
    decreases list.len(),
{
    if list.len() == 0 {
        Ok(Map::empty())
    } else {
        match topology_items(list.drop_last()) {
            Err(e) => Err(e),
            Ok(m) => match topology_item(list.last()) {
                Some((label, place)) => Ok(m.insert(label, place)),
                None => Err(Flaw::TopologySpec { item: list.last() }),
            },
        }
    }
}

/// A flaw in the first items is the flaw of the whole list.
proof fn lemma_topology_flaw(list: Seq<Seq<char>>, n: int)
    requires
        0 <= n <= list.len(),
        topology_items(list.take(n)) is Err,
    ensures
        topology_items(list) == topology_items(list.take(n)),
    decreases list.len() - n,
{
    if n < list.len() {
        assert(list.take(n + 1).drop_last() =~= list.take(n));
        lemma_topology_flaw(list, n + 1);
    } else {
        assert(list.take(n) =~= list);
    }
}

fn parse_topology_item<'a>(item: &'a str) -> (r: Option<(&'a str, TopologyId)>)
    ensures
        match r {
            Some((l, t)) => topology_item(item@) == Some((l@, t@)),
            None => topology_item(item@) is None,
        },
{
    proof {
        lemma_until(item@, '@');
        lemma_split_head(item@, '@');
    }
    let pieces: Vec<&str> = split_text(item, '@');
    let label: &'a str = pieces[0];
    assert(views(pieces@)[0] == pieces@[0]@);
    if pieces.len() == 1 {
        assert(views(pieces@).len() == 1);
        return None;
    }
    let n: usize = item.unicode_len();
    let at: usize = label.unicode_len();
    assert(views(pieces@).len() > 1);
    assert(at == until(item@, '@'));
    let rest: &str = item.substring_char(at + 1, n);
    assert(rest@ =~= item@.skip(at as int + 1));
    let parts: Vec<&str> = split_text(rest, '/');
    assert(views(parts@).len() == parts@.len());
    if parts.len() != 3 {
        return None;
    }
    assert(views(parts@)[0] == parts@[0]@ && views(parts@)[1] == parts@[1]@ && views(parts@)[2]
        == parts@[2]@);
    Some((label, TopologyId::new(parts[0], parts[1], parts[2])))
}

/// The first piece ends at the first separator.
proof fn lemma_split_head(text: Seq<char>, sep: char)
    ensures
        split(text, sep).len() >= 1,
        split(text, sep)[0] == text.take(until(text, sep) as int),
        (split(text, sep).len() == 1) == (until(text, sep) >= text.len()),
    decreases text.len(),
{
    lemma_until(text, sep);
    let n = until(text, sep);
    if n < text.len() {
        lemma_split_head(text.skip(n as int + 1), sep);
    } else {
        assert(text.take(n as int) =~= text);
    }
}

/// Reads places of backends: `label@node/rack/cluster,...`.
pub fn parse_topology_map(spec: &str) -> (r: Result<TopologyMap, ConfigError>)
    ensures
        match r {
            Ok(m) => topology_items(items(spec@, ',')) == Ok::<_, Flaw>(m@),
            Err(e) => topology_items(items(spec@, ',')) == Err::<
                Map<Seq<char>, Place>,
                Flaw,
            >(e@),
        },
{
    let list: Vec<&str> = list_items(spec, ',');
    let ghost all = views(list@);
    let n: usize = list.len();
    let mut out: TopologyMap = TopologyMap::new();
    for i in 0..n
        invariant
            n == list@.len(),
            all == views(list@),
            all == items(spec@, ','),
            topology_items(all.take(i as int)) == Ok::<_, Flaw>(out@),
    {
        assert(all.take(i + 1).drop_last() =~= all.take(i as int));
        assert(all.take(i + 1).last() == list@[i as int]@);
        match parse_topology_item(list[i]) {
            Some((label, place)) => {
                out.insert(label, place);
            },
            None => {
                proof {
                    lemma_topology_flaw(all, i + 1);
                }
                return Err(ConfigError::TopologySpec { item: list[i].to_owned() });
            },
        }
    }
    assert(all.take(n as int) =~= all);
    Ok(out)
}

/// A backend as written: address and service time are not read yet.
#[derive(Debug, PartialEq, Eq)]
pub struct BackendSpec {
    pub label: String,
    pub address: String,
    pub seconds: String,
}

/// A backend as written, as the contracts see it.
pub struct BackendText {
    pub label: Seq<char>,
    pub address: Seq<char>,
    pub seconds: Seq<char>,
}

impl View for BackendSpec {
    type V = BackendText;

    open spec fn view(&self) -> BackendText {
        BackendText { label: self.label@, address: self.address@, seconds: self.seconds@ }
    }
}

/// `label@host:port@seconds`.
pub open spec fn backend_item(item: Seq<char>) -> Result<BackendText, Flaw> {
    let parts = split(item, '@');
    if parts.len() == 3 {
        Ok(BackendText { label: parts[0], address: parts[1], seconds: parts[2] })
    } else {
        Err(Flaw::BackendSpec { item })
    }
}

fn parse_backend_item(item: &str) -> (r: Result<BackendSpec, ConfigError>)
    ensures
        match r {
            Ok(b) => backend_item(item@) == Ok::<BackendText, Flaw>(b@),
            Err(e) => backend_item(item@) == Err::<BackendText, Flaw>(e@),
        },
{
    let parts: Vec<&str> = split_text(item, '@');
    assert(views(parts@).len() == parts@.len());
    if parts.len() != 3 {
        return Err(ConfigError::BackendSpec { item: item.to_owned() });
    }
    assert(views(parts@)[0] == parts@[0]@ && views(parts@)[1] == parts@[1]@ && views(parts@)[2]
        == parts@[2]@);
    Ok(
        BackendSpec {
            label: parts[0].to_owned(),
            address: parts[1].to_owned(),
            seconds: parts[2].to_owned(),
        },
    )
}

/// Takes a pool specification apart: `label@host:port@seconds,...`, one result per item.
pub fn parse_pool(spec: &str) -> (r: Vec<Result<BackendSpec, ConfigError>>)
    ensures
        r@.len() == items(spec@, ',').len(),
        forall|i: int|
            0 <= i < r@.len() ==> match #[trigger] r@[i] {
                Ok(b) => backend_item(items(spec@, ',')[i]) == Ok::<BackendText, Flaw>(b@),
                Err(e) => backend_item(items(spec@, ',')[i]) == Err::<BackendText, Flaw>(e@),
            },
{
    let list: Vec<&str> = list_items(spec, ',');
    let ghost all = views(list@);
    let n: usize = list.len();
    let mut out: Vec<Result<BackendSpec, ConfigError>> = Vec::new();
    for i in 0..n
        invariant
            n == list@.len(),
            all == views(list@),
            out@.len() == i,
            forall|j: int|
                0 <= j < i ==> match #[trigger] out@[j] {
                    Ok(b) => backend_item(all[j]) == Ok::<BackendText, Flaw>(b@),
                    Err(e) => backend_item(all[j]) == Err::<BackendText, Flaw>(e@),
                },
    {
        assert(all[i as int] == list@[i as int]@);
        out.push(parse_backend_item(list[i]));
    }
    out
}

/// A cache group as written.
pub struct GroupText {
    pub group: u64,
    pub domain: u64,
    pub template: u64,
    pub tenants: Seq<u64>,
}

/// A number in a field of a cache-group item.
pub open spec fn group_field(name: Seq<char>, raw: Seq<char>, item: Seq<char>) -> Result<u64, Flaw> {
    match number(encode_utf8(raw)) {
        Some(n) => Ok(n),
        None => Err(Flaw::CacheGroupField { name, raw, item }),
    }
}

/// The tenants of a group in order; the first that is no number is the flaw.
pub open spec fn group_tenants(list: Seq<Seq<char>>, item: Seq<char>) -> Result<Seq<u64>, Flaw>
    decreases list.len(),
{
    if list.len() == 0 {
        Ok(Seq::empty())
    } else {
        match group_tenants(list.drop_last(), item) {
            Err(e) => Err(e),
            Ok(ids) => match group_field("tenant"@, list.last(), item) {
                Ok(id) => Ok(ids.push(id)),
                Err(e) => Err(e),
            },
        }
    }
}

/// `group@domain@template_fp@tenant1+tenant2`, numbers in decimal or behind `0x`.
pub open spec fn group_item(item: Seq<char>) -> Result<GroupText, Flaw> {
    let parts = split(item, '@');
    if parts.len() != 4 {
        Err(Flaw::CacheGroupSpec { item })
    } else {
        match group_field("group"@, parts[0], item) {
            Err(e) => Err(e),
            Ok(group) => match group_field("domain"@, parts[1], item) {
                Err(e) => Err(e),
                Ok(domain) => match group_field("template_fp"@, parts[2], item) {
                    Err(e) => Err(e),
                    Ok(template) => match group_tenants(items(parts[3], '+'), item) {
                        Err(e) => Err(e),
                        Ok(tenants) => if tenants.len() == 0 {
                            Err(Flaw::CacheGroupTenants { item })
                        } else {
                            Ok(GroupText { group, domain, template, tenants })
                        },
                    },
                },
            },
        }
    }
}

/// Whether a registered group is what an item says.
pub open spec fn registers(g: Group, text: GroupText) -> bool {
    &&& g.members == text.tenants.to_set()
    &&& g.template.spec_raw() == text.template
    &&& g.domain == text.domain
}

/// All items in order: the first bad one is the flaw, and the last one for a group counts.
pub open spec fn group_items(list: Seq<Seq<char>>) -> Result<Map<u64, GroupText>, Flaw>
    decreases list.len(),
{
    if list.len() == 0 {
        Ok(Map::empty())
    } else {
        match group_items(list.drop_last()) {
            Err(e) => Err(e),
            Ok(m) => match group_item(list.last()) {
                Ok(g) => Ok(m.insert(g.group, g)),
                Err(e) => Err(e),
            },
        }
    }
}

/// Whether a registry holds exactly the groups of a specification.
pub open spec fn registers_all(groups: Map<u64, Group>, texts: Map<u64, GroupText>) -> bool {
    &&& groups.dom() == texts.dom()
    &&& forall|g: u64| #[trigger] texts.contains_key(g) ==> registers(groups[g], texts[g])
}

proof fn lemma_group_flaw(list: Seq<Seq<char>>, n: int)
    requires
        0 <= n <= list.len(),
        group_items(list.take(n)) is Err,
    ensures
        group_items(list) == group_items(list.take(n)),
    decreases list.len() - n,
{
    if n < list.len() {
        assert(list.take(n + 1).drop_last() =~= list.take(n));
        lemma_group_flaw(list, n + 1);
    } else {
        assert(list.take(n) =~= list);
    }
}

proof fn lemma_tenant_flaw(list: Seq<Seq<char>>, item: Seq<char>, n: int)
    requires
        0 <= n <= list.len(),
        group_tenants(list.take(n), item) is Err,
    ensures
        group_tenants(list, item) == group_tenants(list.take(n), item),
    decreases list.len() - n,
{
    if n < list.len() {
        assert(list.take(n + 1).drop_last() =~= list.take(n));
        lemma_tenant_flaw(list, item, n + 1);
    } else {
        assert(list.take(n) =~= list);
    }
}

fn parse_group_field(name: &str, raw: &str, item: &str) -> (r: Result<u64, ConfigError>)
    ensures
        match r {
            Ok(n) => group_field(name@, raw@, item@) == Ok::<u64, Flaw>(n),
            Err(e) => group_field(name@, raw@, item@) == Err::<u64, Flaw>(e@),
        },
{
    match parse_u64_maybe_hex(raw.as_bytes()) {
        Some(n) => Ok(n),
        None => Err(
            ConfigError::CacheGroupField {
                name: name.to_owned(),
                raw: raw.to_owned(),
                item: item.to_owned(),
            },
        ),
    }
}

/// The ids of a list of tenants.
pub open spec fn raw_ids(tenants: Seq<TenantId>) -> Seq<u64> {
    tenants.map_values(|t: TenantId| t.spec_raw())
}

fn parse_tenants(text: &str, item: &str) -> (r: Result<Vec<TenantId>, ConfigError>)
    ensures
        match r {
            Ok(v) => group_tenants(items(text@, '+'), item@) == Ok::<Seq<u64>, Flaw>(raw_ids(v@)),
            Err(e) => group_tenants(items(text@, '+'), item@) == Err::<Seq<u64>, Flaw>(e@),
        },
{
    let list: Vec<&str> = list_items(text, '+');
    let ghost all = views(list@);
    let n: usize = list.len();
    let mut out: Vec<TenantId> = Vec::new();
    assert(raw_ids(out@) =~= Seq::<u64>::empty());
    for i in 0..n
        invariant
            n == list@.len(),
            all == views(list@),
            all == items(text@, '+'),
            group_tenants(all.take(i as int), item@) == Ok::<Seq<u64>, Flaw>(raw_ids(out@)),
    {
        let ghost before = raw_ids(out@);
        assert(all.take(i + 1).drop_last() =~= all.take(i as int));
        assert(all.take(i + 1).last() == list@[i as int]@);
        match parse_group_field("tenant", list[i], item) {
            Ok(id) => {
                out.push(TenantId::new(id));
                assert(raw_ids(out@) =~= before.push(id));
            },
            Err(e) => {
                proof {
                    lemma_tenant_flaw(all, item@, i + 1);
                }
                return Err(e);
            },
        }
    }
    assert(all.take(n as int) =~= all);
    Ok(out)
}

/// One cache group, ready to be registered.
struct GroupParts {
    group: GroupId,
    domain: u64,
    template: PrefixFingerprint,
    members: Vec<TenantId>,
}

fn parse_group_item(item: &str) -> (r: Result<GroupParts, ConfigError>)
    ensures
        match r {
            Ok(p) => group_item(item@) == Ok::<GroupText, Flaw>(
                GroupText {
                    group: p.group.spec_raw(),
                    domain: p.domain,
                    template: p.template.spec_raw(),
                    tenants: raw_ids(p.members@),
                },
            ),
            Err(e) => group_item(item@) == Err::<GroupText, Flaw>(e@),
        },
{
    let parts: Vec<&str> = split_text(item, '@');
    assert(views(parts@).len() == parts@.len());
    if parts.len() != 4 {
        return Err(ConfigError::CacheGroupSpec { item: item.to_owned() });
    }
    assert(views(parts@)[0] == parts@[0]@ && views(parts@)[1] == parts@[1]@ && views(parts@)[2]
        == parts@[2]@ && views(parts@)[3] == parts@[3]@);
    let group: u64 = match parse_group_field("group", parts[0], item) {
        Ok(n) => n,
        Err(e) => {
            return Err(e);
        },
    };
    let domain: u64 = match parse_group_field("domain", parts[1], item) {
        Ok(n) => n,
        Err(e) => {
            return Err(e);
        },
    };
    let template: u64 = match parse_group_field("template_fp", parts[2], item) {
        Ok(n) => n,
        Err(e) => {
            return Err(e);
        },
    };
    let members: Vec<TenantId> = match parse_tenants(parts[3], item) {
        Ok(v) => v,
        Err(e) => {
            return Err(e);
        },
    };
    if members.len() == 0 {
        return Err(ConfigError::CacheGroupTenants { item: item.to_owned() });
    }
    Ok(
        GroupParts {
            group: GroupId::new(group),
            domain,
            template: PrefixFingerprint::new(template),
            members,
        },
    )
}

/// Reads cache groups: `group@domain@template_fp@tenant1+tenant2,...`. An empty specification
/// gives no registry at all.
pub fn parse_cache_groups(spec: &str) -> (r: Result<Option<SharedPrefixGroupRegistry>, ConfigError>)
    ensures
        match r {
            Ok(None) => items(spec@, ',').len() == 0,
            Ok(Some(reg)) => {
                &&& items(spec@, ',').len() > 0
                &&& group_items(items(spec@, ',')) is Ok
                &&& registers_all(reg@, group_items(items(spec@, ','))->Ok_0)
            },
            Err(e) => group_items(items(spec@, ',')) == Err::<Map<u64, GroupText>, Flaw>(e@),
        },
{
    let list: Vec<&str> = list_items(spec, ',');
    let ghost all = views(list@);
    let n: usize = list.len();
    let mut registry: SharedPrefixGroupRegistry = SharedPrefixGroupRegistry::new();
    assert(registers_all(registry@, Map::empty()));
    for i in 0..n
        invariant
            n == list@.len(),
            all == views(list@),
            all == items(spec@, ','),
            group_items(all.take(i as int)) is Ok,
            registers_all(registry@, group_items(all.take(i as int))->Ok_0),
    {
        let ghost before = group_items(all.take(i as int))->Ok_0;
        let ghost old_groups = registry@;
        assert(all.take(i + 1).drop_last() =~= all.take(i as int));
        assert(all.take(i + 1).last() == list@[i as int]@);
        match parse_group_item(list[i]) {
            Ok(p) => {
                let ghost text = group_item(list@[i as int]@)->Ok_0;
                let ghost ids = raw_ids(p.members@);
                registry.register_template(p.group, p.members, p.template, p.domain);
                proof {
                    let after = before.insert(text.group, text);
                    assert(registry@.dom() =~= after.dom());
                    assert forall|g: u64| #[trigger] after.contains_key(g) implies registers(
                        registry@[g],
                        after[g],
                    ) by {
                        if g != text.group {
                            assert(before.contains_key(g));
                        }
                    }
                }
            },
            Err(e) => {
                proof {
                    lemma_group_flaw(all, i + 1);
                }
                return Err(e);
            },
        }
    }
    assert(all.take(n as int) =~= all);
    if n == 0 {
        Ok(None)
    } else {
        Ok(Some(registry))
    }
}

/// Whether a flag is set: `1`, `true` and `yes` are, any other value is not, and without a value
/// the default holds.
pub open spec fn flag(value: Option<Seq<char>>, default: bool) -> bool {
    match value {
        Some(v) => v == "1"@ || v == "true"@ || v == "yes"@,
        None => default,
    }
}

/// Reads a flag of the environment.
pub fn env_bool(value: Option<&str>, default: bool) -> (r: bool)
    ensures
        r == flag(label_view(value), default),
{
    match value {
        Some(v) => same_text(v, "1") || same_text(v, "true") || same_text(v, "yes"),
        None => default,
    }
}

/// Whether pool shares are actuated; `value` is what the environment says.
pub fn rebalancer_actuation_enabled(value: Option<&str>) -> (r: bool)
    ensures
        r == flag(label_view(value), POOL_ACTUATION_ENABLED),
{
    env_bool(value, POOL_ACTUATION_ENABLED)
}

/// Whether transfers are charged by topology; `value` is what the environment says.
pub fn rdma_routing_enabled(value: Option<&str>) -> (r: bool)
    ensures
        r == flag(label_view(value), false),
{
    env_bool(value, false)
}

/// A positive number from the environment.
pub open spec fn positive(value: Option<Seq<char>>) -> Option<u64> {
    match value {
        Some(v) => match whole_number(encode_utf8(v)) {
            Some(n) => if n > 0 {
                Some(n)
            } else {
                None
            },
            None => None,
        },
        None => None,
    }
}

/// Reads a positive number of the environment.
pub fn parse_u64_env(value: Option<&str>) -> (r: Option<u64>)
    ensures
        r == positive(label_view(value)),
{
    match value {
        Some(v) => match parse_whole(v.as_bytes()) {
            Some(n) => if n > 0 {
                Some(n)
            } else {
                None
            },
            None => None,
        },
        None => None,
    }
}

/// KV bytes of a token unless the environment says otherwise.
pub const DEFAULT_BYTES_PER_TOKEN: u64 = 128;

/// What the environment asks of the router beyond its pools.
#[derive(Debug, Clone, Copy, PartialEq, Eq, Structural)]
pub struct RouterPlan {
    pub bytes_per_token: u64,
    /// Bytes of the decode pool; without it nothing is reserved.
    pub kv_capacity: Option<u64>,
    /// Whether warmth is recorded.
    pub state_plane: bool,
}

/// Reads the plan; each value is what the environment says.
pub fn router_plan(
    bytes_per_token: Option<&str>,
    kv_capacity: Option<&str>,
    state_plane: Option<&str>,
) -> (r: RouterPlan)
    ensures
        r.bytes_per_token == match positive(label_view(bytes_per_token)) {
            Some(n) => n,
            None => DEFAULT_BYTES_PER_TOKEN,
        },
        r.kv_capacity == positive(label_view(kv_capacity)),
        r.state_plane <==> flag(label_view(state_plane), false) || positive(
            label_view(kv_capacity),
        ) is Some,
{
    let capacity: Option<u64> = parse_u64_env(kv_capacity);
    RouterPlan {
        bytes_per_token: match parse_u64_env(bytes_per_token) {
            Some(n) => n,
            None => DEFAULT_BYTES_PER_TOKEN,
        },
        kv_capacity: capacity,
        state_plane: env_bool(state_plane, false) || capacity.is_some(),
    }
}

/// Checks that at least one pool has a backend.
pub fn require_backends(
    prefill: &Vec<Backend>,
    decode: &Vec<Backend>,
) -> (r: Result<(), ConfigError>)
    ensures
        r == if prefill@.len() == 0 && decode@.len() == 0 {
            Err::<(), ConfigError>(ConfigError::NoBackends)
        } else {
            Ok(())
        },
{
    if prefill.len() == 0 && decode.len() == 0 {
        Err(ConfigError::NoBackends)
    } else {
        Ok(())
    }
}

} // verus!
