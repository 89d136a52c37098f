//! Discovers routing declarations in container labels and assembles them into
//! a deterministic reverse-proxy configuration document.

pub mod dynamic_configuration;
pub mod strutil;

use vstd::prelude::*;
use vstd::relations::{sorted_by, total_ordering};
use vstd::seq_lib::group_to_multiset_ensures;
use crate::strutil::{
    capture_middle, is_port_string, lemma_lex_lt_asymmetric, lemma_lex_lt_connected,
    lemma_lex_lt_irreflexive, lemma_lex_lt_transitive, lex_leq, lex_lt, matches_key, middle_of,
    parse_port, port_val, str_eq_chars, str_lt,
};

verus! {

#[derive(Debug, Clone)]
pub struct TraefikedContainer {
    pub name: String,
    pub public_ports: Vec<u16>,
    pub config: TraefikedContainerConfig,
}

#[derive(Clone, Debug)]
pub enum TraefikedContainerConfig {
    SinglePort(TraefikedContainerSinglePortConfig),
    MultiplePorts(Vec<TraefikedContainerMultiPortConfig>),
}

#[derive(Clone, Debug)]
pub struct TraefikedContainerSinglePortConfig {
    pub router_name: String,
    pub rule: String,
}

#[derive(Clone, Debug)]
pub struct TraefikedContainerMultiPortConfig {
    pub config: TraefikedContainerSinglePortConfig,
    pub service_name: String,
    pub target_port: u16,
}

// The label-key grammar: router rules live under
// `routing.http.routers.<name>.rule`, service ports under
// `routing.http.services.<name>.loadbalancer.server.port`.
pub open spec fn router_key_prefix() -> Seq<char> {
    "routing.http.routers."@
}

pub open spec fn rule_key_suffix() -> Seq<char> {
    ".rule"@
}

pub open spec fn service_key_prefix() -> Seq<char> {
    "routing.http.services."@
}

pub open spec fn port_key_suffix() -> Seq<char> {
    ".loadbalancer.server.port"@
}

pub open spec fn is_router_key(k: Seq<char>) -> bool {
    matches_key(k, router_key_prefix(), rule_key_suffix())
}

pub open spec fn router_name_of(k: Seq<char>) -> Seq<char> {
    middle_of(k, router_key_prefix(), rule_key_suffix())
}

pub open spec fn is_service_port_key(k: Seq<char>) -> bool {
    matches_key(k, service_key_prefix(), port_key_suffix())
}

pub open spec fn service_name_of(k: Seq<char>) -> Seq<char> {
    middle_of(k, service_key_prefix(), port_key_suffix())
}

/// The `(routerName, rule)` pairs declared by the labels, in label order.
pub open spec fn router_pairs_of(labels: Seq<(String, String)>) -> Seq<(Seq<char>, Seq<char>)>
    decreases labels.len(),
{
    if labels.len() == 0 {
        Seq::empty()
    } else {
        let rest = router_pairs_of(labels.drop_last());
        let l = labels.last();
        if is_router_key(l.0@) {
            rest.push((router_name_of(l.0@), l.1@))
        } else {
            rest
        }
    }
}

/// The `(serviceName, port)` pairs declared by the labels, in label order;
/// a pair whose value does not parse as a 16-bit port is excluded.
pub open spec fn service_pairs_of(labels: Seq<(String, String)>) -> Seq<(Seq<char>, u16)>
    decreases labels.len(),
{
    if labels.len() == 0 {
        Seq::empty()
    } else {
        let rest = service_pairs_of(labels.drop_last());
        let l = labels.last();
        if is_service_port_key(l.0@) && is_port_string(l.1@) {
            rest.push((service_name_of(l.0@), port_val(l.1@)))
        } else {
            rest
        }
    }
}

/// Order on router pairs: by name, then by rule as the tie-break.
pub open spec fn router_pair_leq(a: (Seq<char>, Seq<char>), b: (Seq<char>, Seq<char>)) -> bool {
    lex_lt(a.0, b.0) || (a.0 == b.0 && lex_leq(a.1, b.1))
}

pub open spec fn router_pair_le() -> spec_fn((Seq<char>, Seq<char>), (Seq<char>, Seq<char>)) -> bool {
    |a: (Seq<char>, Seq<char>), b: (Seq<char>, Seq<char>)| router_pair_leq(a, b)
}

/// Order on service pairs: by name, then by port as the tie-break.
pub open spec fn service_pair_leq(a: (Seq<char>, u16), b: (Seq<char>, u16)) -> bool {
    lex_lt(a.0, b.0) || (a.0 == b.0 && a.1 <= b.1)
}

pub open spec fn service_pair_le() -> spec_fn((Seq<char>, u16), (Seq<char>, u16)) -> bool {
    |a: (Seq<char>, u16), b: (Seq<char>, u16)| service_pair_leq(a, b)
}

/// The router pairs sorted by name ascending.
pub open spec fn sorted_routers_of(labels: Seq<(String, String)>) -> Seq<(Seq<char>, Seq<char>)> {
    router_pairs_of(labels).sort_by(router_pair_le())
}

/// The service pairs sorted by name ascending.
pub open spec fn sorted_services_of(labels: Seq<(String, String)>) -> Seq<(Seq<char>, u16)> {
    service_pairs_of(labels).sort_by(service_pair_le())
}

pub proof fn lemma_router_pair_le_total()
    ensures
        total_ordering(router_pair_le()),
{
    let le = router_pair_le();
    assert forall|a: (Seq<char>, Seq<char>), b: (Seq<char>, Seq<char>)|
        #[trigger] le(a, b) && le(b, a) implies a == b by {
        lemma_lex_lt_irreflexive(a.0);
        lemma_lex_lt_irreflexive(a.1);
        if lex_lt(a.0, b.0) {
            lemma_lex_lt_asymmetric(a.0, b.0);
        } else if lex_lt(b.0, a.0) {
            lemma_lex_lt_asymmetric(b.0, a.0);
        } else {
            if lex_lt(a.1, b.1) {
                lemma_lex_lt_asymmetric(a.1, b.1);
            }
            assert(a.0 == b.0 && a.1 == b.1);
            assert(a =~= b);
        }
    }
    assert forall|a: (Seq<char>, Seq<char>), b: (Seq<char>, Seq<char>), c: (Seq<char>, Seq<char>)|
        #[trigger] le(a, b) && #[trigger] le(b, c) implies le(a, c) by {
        if lex_lt(a.0, b.0) && lex_lt(b.0, c.0) {
            lemma_lex_lt_transitive(a.0, b.0, c.0);
        }
        if a.0 == b.0 && b.0 == c.0 && lex_lt(a.1, b.1) && lex_lt(b.1, c.1) {
            lemma_lex_lt_transitive(a.1, b.1, c.1);
        }
    }
    assert forall|a: (Seq<char>, Seq<char>), b: (Seq<char>, Seq<char>)| #[trigger]
        le(a, b) || #[trigger] le(b, a) by {
        lemma_lex_lt_connected(a.0, b.0);
        if a.0 == b.0 {
            lemma_lex_lt_connected(a.1, b.1);
        }
    }
}

pub proof fn lemma_service_pair_le_total()
    ensures
        total_ordering(service_pair_le()),
{
    let le = service_pair_le();
    assert forall|a: (Seq<char>, u16), b: (Seq<char>, u16)| #[trigger]
        le(a, b) && le(b, a) implies a == b by {
        lemma_lex_lt_irreflexive(a.0);
        if lex_lt(a.0, b.0) {
            lemma_lex_lt_asymmetric(a.0, b.0);
        } else if lex_lt(b.0, a.0) {
            lemma_lex_lt_asymmetric(b.0, a.0);
        } else {
            assert(a.0 == b.0 && a.1 == b.1);
            assert(a =~= b);
        }
    }
    assert forall|a: (Seq<char>, u16), b: (Seq<char>, u16), c: (Seq<char>, u16)|
        #[trigger] le(a, b) && #[trigger] le(b, c) implies le(a, c) by {
        if lex_lt(a.0, b.0) && lex_lt(b.0, c.0) {
            lemma_lex_lt_transitive(a.0, b.0, c.0);
        }
    }
    assert forall|a: (Seq<char>, u16), b: (Seq<char>, u16)| #[trigger]
        le(a, b) || #[trigger] le(b, a) by {
        lemma_lex_lt_connected(a.0, b.0);
    }
}

/// The views of a list of router pairs held as strings.
pub open spec fn router_pair_views(s: Seq<(String, String)>) -> Seq<(Seq<char>, Seq<char>)> {
    s.map_values(|p: (String, String)| (p.0@, p.1@))
}

/// The views of a list of service pairs held as a string and a port.
pub open spec fn service_pair_views(s: Seq<(String, u16)>) -> Seq<(Seq<char>, u16)> {
    s.map_values(|p: (String, u16)| (p.0@, p.1))
}

fn router_pair_leq_exec(a: &(String, String), b: &(String, String)) -> (r: bool)
    ensures
        r == router_pair_leq((a.0@, a.1@), (b.0@, b.1@)),
{
    if str_lt(a.0.as_str(), b.0.as_str()) {
        true
    } else if str_eq_chars(a.0.as_str(), b.0.as_str()) {
        str_lt(a.1.as_str(), b.1.as_str()) || str_eq_chars(a.1.as_str(), b.1.as_str())
    } else {
        false
    }
}

fn service_pair_leq_exec(a: &(String, u16), b: &(String, u16)) -> (r: bool)
    ensures
        r == service_pair_leq((a.0@, a.1), (b.0@, b.1)),
{
    if str_lt(a.0.as_str(), b.0.as_str()) {
        true
    } else if str_eq_chars(a.0.as_str(), b.0.as_str()) {
        a.1 <= b.1
    } else {
        false
    }
}

fn insert_router_pair(v: &mut Vec<(String, String)>, p: (String, String))
    requires
        sorted_by(router_pair_views(old(v)@), router_pair_le()),
    ensures
        sorted_by(router_pair_views(final(v)@), router_pair_le()),
        router_pair_views(final(v)@).to_multiset() == router_pair_views(
            old(v)@,
        ).to_multiset().insert((p.0@, p.1@)),
{
    proof {
        lemma_router_pair_le_total();
    }
    let ghost pv = (p.0@, p.1@);
    let ghost le = router_pair_le();
    let mut idx: usize = 0;
    while idx < v.len() && !router_pair_leq_exec(&p, &v[idx])
        invariant
            idx <= v@.len(),
            le == router_pair_le(),
            pv == (p.0@, p.1@),
            forall|j: int| 0 <= j < idx ==> !le(pv, #[trigger] router_pair_views(v@)[j]),
        decreases v@.len() - idx,
    {
        proof {
            assert(router_pair_views(v@)[idx as int] == (v@[idx as int].0@, v@[idx as int].1@));
            assert(!le(pv, router_pair_views(v@)[idx as int]));
        }
        idx += 1;
    }
    let ghost old_views = router_pair_views(v@);
    v.insert(idx, p);
    proof {
        broadcast use group_to_multiset_ensures;

        assert(router_pair_views(v@) =~= old_views.insert(idx as int, pv));
        assert forall|i: int, j: int|
            0 <= i < j < router_pair_views(v@).len() implies #[trigger] le(
            router_pair_views(v@)[i],
            router_pair_views(v@)[j],
        ) by {
            let nv = router_pair_views(v@);
            if j < idx {
                assert(nv[i] == old_views[i] && nv[j] == old_views[j]);
            } else if i > idx {
                assert(nv[i] == old_views[i - 1] && nv[j] == old_views[j - 1]);
            } else if i < idx && j == idx {
                assert(!le(pv, old_views[i]));
                assert(le(old_views[i], pv));
            } else if i == idx {
                assert(nv[i] == pv);
                if idx < old_views.len() {
                    assert(le(pv, old_views[idx as int]));
                    if j > idx {
                        assert(le(old_views[idx as int], old_views[j - 1]));
                    }
                }
            } else {
                assert(i < idx && j > idx);
                assert(!le(pv, old_views[i]));
                assert(le(old_views[i], pv));
                if j - 1 > idx || j - 1 == idx {
                    assert(nv[j] == old_views[j - 1]);
                    if idx < old_views.len() {
                        assert(le(pv, old_views[idx as int]));
                        if j - 1 > idx {
                            assert(le(old_views[idx as int], old_views[j - 1]));
                        }
                    }
                    assert(le(pv, old_views[j - 1]));
                }
                assert(le(old_views[i], nv[j]));
            }
        }
    }
}

fn insert_service_pair(v: &mut Vec<(String, u16)>, p: (String, u16))
    requires
        sorted_by(service_pair_views(old(v)@), service_pair_le()),
    ensures
        sorted_by(service_pair_views(final(v)@), service_pair_le()),
        service_pair_views(final(v)@).to_multiset() == service_pair_views(
            old(v)@,
        ).to_multiset().insert((p.0@, p.1)),
{
    proof {
        lemma_service_pair_le_total();
    }
    let ghost pv = (p.0@, p.1);
    let ghost le = service_pair_le();
    let mut idx: usize = 0;
    while idx < v.len() && !service_pair_leq_exec(&p, &v[idx])
        invariant
            idx <= v@.len(),
            le == service_pair_le(),
            pv == (p.0@, p.1),
            forall|j: int| 0 <= j < idx ==> !le(pv, #[trigger] service_pair_views(v@)[j]),
        decreases v@.len() - idx,
    {
        proof {
            assert(service_pair_views(v@)[idx as int] == (v@[idx as int].0@, v@[idx as int].1));
            assert(!le(pv, service_pair_views(v@)[idx as int]));
        }
        idx += 1;
    }
    let ghost old_views = service_pair_views(v@);
    v.insert(idx, p);
    proof {
        broadcast use group_to_multiset_ensures;

        assert(service_pair_views(v@) =~= old_views.insert(idx as int, pv));
        assert forall|i: int, j: int|
            0 <= i < j < service_pair_views(v@).len() implies #[trigger] le(
            service_pair_views(v@)[i],
            service_pair_views(v@)[j],
        ) by {
            let nv = service_pair_views(v@);
            if j < idx {
                assert(nv[i] == old_views[i] && nv[j] == old_views[j]);
            } else if i > idx {
                assert(nv[i] == old_views[i - 1] && nv[j] == old_views[j - 1]);
            } else if i < idx && j == idx {
                assert(!le(pv, old_views[i]));
                assert(le(old_views[i], pv));
            } else if i == idx {
                assert(nv[i] == pv);
                if idx < old_views.len() {
                    assert(le(pv, old_views[idx as int]));
                    if j > idx {
                        assert(le(old_views[idx as int], old_views[j - 1]));
                    }
                }
            } else {
                assert(i < idx && j > idx);
                assert(!le(pv, old_views[i]));
                assert(le(old_views[i], pv));
                assert(nv[j] == old_views[j - 1]);
                if idx < old_views.len() {
                    assert(le(pv, old_views[idx as int]));
                    if j - 1 > idx {
                        assert(le(old_views[idx as int], old_views[j - 1]));
                    }
                }
                assert(le(old_views[i], nv[j]));
            }
        }
    }
}

/// Whether a label map declares a routing configuration: exactly one router
/// rule, or several router rules matched by exactly as many service ports.
pub open spec fn extractable(labels: Seq<(String, String)>) -> bool {
    ||| router_pairs_of(labels).len() == 1
    ||| (router_pairs_of(labels).len() > 1 && service_pairs_of(labels).len() == router_pairs_of(
        labels,
    ).len())
}

/// What the extracted configuration holds, in terms of the declared pairs:
/// a single router declaration becomes the single-port configuration made of
/// that pair; several become the multi-port configuration that pairs the
/// i-th router with the i-th service after both lists are sorted by name.
pub open spec fn config_matches_labels(
    cfg: TraefikedContainerConfig,
    labels: Seq<(String, String)>,
) -> bool {
    &&& (router_pairs_of(labels).len() == 1 ==> (cfg matches TraefikedContainerConfig::SinglePort(
        c,
    ) && c.router_name@ == router_pairs_of(labels)[0].0 && c.rule@ == router_pairs_of(
        labels,
    )[0].1))
    &&& ((router_pairs_of(labels).len() > 1 && service_pairs_of(labels).len() == router_pairs_of(
        labels,
    ).len()) ==> (cfg matches TraefikedContainerConfig::MultiplePorts(v) && v@.len()
        == router_pairs_of(labels).len() && (forall|i: int|
        0 <= i < v@.len() ==> (#[trigger] v@[i]).config.router_name@ == sorted_routers_of(
            labels,
        )[i].0 && v@[i].config.rule@ == sorted_routers_of(labels)[i].1 && v@[i].service_name@
            == sorted_services_of(labels)[i].0 && v@[i].target_port == sorted_services_of(
            labels,
        )[i].1)))
}

/// Scans a container's labels for routing declarations.
///
/// Zero router declarations mean the container is not managed and yield
/// `None`. Exactly one yields a single-port configuration from that
/// declaration, ignoring any service/port labels. More than one yields a
/// multi-port configuration pairing the i-th router with the i-th service
/// after sorting both lists by name — provided the counts agree; a count
/// mismatch yields `None`.
pub fn extract_traefik_config(labels: &Vec<(String, String)>) -> (r: Option<
    TraefikedContainerConfig,
>)
    ensures
        (r is None) == !extractable(labels@),
        r matches Some(cfg) ==> config_matches_labels(cfg, labels@),
{
    let ghost lv = labels@;
    let mut routers: Vec<(String, String)> = Vec::new();
    let mut li: usize = 0;
    proof {
        assert(lv.take(0) =~= Seq::<(String, String)>::empty());
        assert(router_pair_views(routers@) =~= Seq::<(Seq<char>, Seq<char>)>::empty());
        assert(router_pair_views(routers@).to_multiset() =~= router_pairs_of(
            lv.take(0),
        ).to_multiset());
    }
    while li < labels.len()
        invariant
            li <= lv.len(),
            lv == labels@,
            sorted_by(router_pair_views(routers@), router_pair_le()),
            router_pair_views(routers@).to_multiset() == router_pairs_of(
                lv.take(li as int),
            ).to_multiset(),
        decreases lv.len() - li,
    {
        let key = &labels[li].0;
        let value = &labels[li].1;
        let ghost before = router_pair_views(routers@).to_multiset();
        let captured = capture_middle(key.as_str(), "routing.http.routers.", ".rule");
        proof {
            broadcast use group_to_multiset_ensures;

            assert(lv.take(li + 1).drop_last() =~= lv.take(li as int));
            assert(lv.take(li + 1).last() == lv[li as int]);
        }
        match captured {
            Some(name) => {
                insert_router_pair(&mut routers, (name, value.clone()));
            },
            None => {},
        }
        li += 1;
    }
    proof {
        assert(lv.take(lv.len() as int) =~= lv);
        lemma_router_pair_le_total();
        router_pairs_of(lv).lemma_sort_by_ensures(router_pair_le());
        vstd::seq_lib::lemma_sorted_unique(
            router_pair_views(routers@),
            sorted_routers_of(lv),
            router_pair_le(),
        );
        assert(router_pair_views(routers@) == sorted_routers_of(lv));
        broadcast use group_to_multiset_ensures;

        assert(router_pairs_of(lv).to_multiset().len() == router_pairs_of(lv).len());
        assert(routers@.len() == router_pairs_of(lv).len());
    }
    if routers.len() == 0 {
        return None;
    }
    if routers.len() == 1 {
        proof {
            lemma_router_pair_le_total();
            vstd::seq_lib::lemma_sorted_unique(
                router_pairs_of(lv),
                sorted_routers_of(lv),
                router_pair_le(),
            );
        }
        let router_name = routers[0].0.clone();
        let rule = routers[0].1.clone();
        return Some(
            TraefikedContainerConfig::SinglePort(
                TraefikedContainerSinglePortConfig { router_name, rule },
            ),
        );
    }
    let mut services: Vec<(String, u16)> = Vec::new();
    let mut si: usize = 0;
    proof {
        assert(lv.take(0) =~= Seq::<(String, String)>::empty());
        assert(service_pair_views(services@) =~= Seq::<(Seq<char>, u16)>::empty());
        assert(service_pair_views(services@).to_multiset() =~= service_pairs_of(
            lv.take(0),
        ).to_multiset());
    }
    while si < labels.len()
        invariant
            si <= lv.len(),
            lv == labels@,
            sorted_by(service_pair_views(services@), service_pair_le()),
            service_pair_views(services@).to_multiset() == service_pairs_of(
                lv.take(si as int),
            ).to_multiset(),
        decreases lv.len() - si,
    {
        let key = &labels[si].0;
        let value = &labels[si].1;
        let captured = capture_middle(key.as_str(), "routing.http.services.", ".loadbalancer.server.port");
        proof {
            broadcast use group_to_multiset_ensures;

            assert(lv.take(si + 1).drop_last() =~= lv.take(si as int));
            assert(lv.take(si + 1).last() == lv[si as int]);
        }
        match captured {
            Some(name) => {
                match parse_port(value.as_str()) {
                    Some(port) => {
                        insert_service_pair(&mut services, (name, port));
                    },
                    None => {},
                }
            },
            None => {},
        }
        si += 1;
    }
    proof {
        assert(lv.take(lv.len() as int) =~= lv);
        lemma_service_pair_le_total();
        service_pairs_of(lv).lemma_sort_by_ensures(service_pair_le());
        vstd::seq_lib::lemma_sorted_unique(
            service_pair_views(services@),
            sorted_services_of(lv),
            service_pair_le(),
        );
        broadcast use group_to_multiset_ensures;

        assert(service_pairs_of(lv).to_multiset().len() == service_pairs_of(lv).len());
        assert(services@.len() == service_pairs_of(lv).len());
    }
    if services.len() != routers.len() {
        return None;
    }
    let n = routers.len();
    let mut entries: Vec<TraefikedContainerMultiPortConfig> = Vec::new();
    let mut i: usize = 0;
    while i < n
        invariant
            i <= n,
            n == routers@.len(),
            n == services@.len(),
            router_pair_views(routers@) == sorted_routers_of(lv),
            service_pair_views(services@) == sorted_services_of(lv),
            entries@.len() == i,
            forall|k: int|
                0 <= k < i ==> (#[trigger] entries@[k]).config.router_name@ == sorted_routers_of(
                    lv,
                )[k].0 && entries@[k].config.rule@ == sorted_routers_of(lv)[k].1
                    && entries@[k].service_name@ == sorted_services_of(lv)[k].0
                    && entries@[k].target_port == sorted_services_of(lv)[k].1,
        decreases n - i,
    {
        let router_name = routers[i].0.clone();
        let rule = routers[i].1.clone();
        let service_name = services[i].0.clone();
        let target_port = services[i].1;
        entries.push(
            TraefikedContainerMultiPortConfig {
                config: TraefikedContainerSinglePortConfig { router_name, rule },
                service_name,
                target_port,
            },
        );
        i += 1;
    }
    Some(TraefikedContainerConfig::MultiplePorts(entries))
}

/// A container record as the discovery layer hands it over: an optional list
/// of names, an optional list of published host ports (one entry per port
/// mapping, absent where the mapping has no public port), and an optional
/// label map.
pub struct RawContainer {
    pub names: Option<Vec<String>>,
    pub ports: Option<Vec<Option<u16>>>,
    pub labels: Option<Vec<(String, String)>>,
}

#[derive(Clone, Copy, Debug, PartialEq, Eq, Structural)]
pub enum AdapterError {
    MissingName,
    MissingPorts,
    NoRoutingConfig,
}

/// A container name with one leading separator removed, if present.
pub open spec fn strip_leading_slash(s: Seq<char>) -> Seq<char> {
    if s.len() > 0 && s[0] == '/' {
        s.drop_first()
    } else {
        s
    }
}

/// The published ports present in a port-mapping list, in list order.
pub open spec fn public_ports_of(ps: Seq<Option<u16>>) -> Seq<u16>
    decreases ps.len(),
{
    if ps.len() == 0 {
        Seq::empty()
    } else {
        let rest = public_ports_of(ps.drop_last());
        match ps.last() {
            Some(p) => rest.push(p),
            None => rest,
        }
    }
}

pub open spec fn raw_has_name(raw: RawContainer) -> bool {
    raw.names matches Some(ns) && ns@.len() > 0
}

pub open spec fn raw_has_routing(raw: RawContainer) -> bool {
    raw.labels matches Some(ls) && extractable(ls@)
}

impl TraefikedContainer {
    /// Normalizes a raw container record: takes its first name with one
    /// leading separator stripped, keeps the published ports in order, and
    /// extracts the routing configuration from the labels. Fails when the
    /// record carries no name, no port list, or no routing declaration.
    pub fn try_from_raw(raw: RawContainer) -> (r: Result<TraefikedContainer, AdapterError>)
        ensures
            (r == Result::<TraefikedContainer, AdapterError>::Err(AdapterError::MissingName)) == !raw_has_name(raw),
            (r == Result::<TraefikedContainer, AdapterError>::Err(AdapterError::MissingPorts)) == (raw_has_name(raw)
                && raw.ports is None),
            (r == Result::<TraefikedContainer, AdapterError>::Err(AdapterError::NoRoutingConfig)) == (raw_has_name(raw)
                && raw.ports is Some && !raw_has_routing(raw)),
            (r is Ok) == (raw_has_name(raw) && raw.ports is Some && raw_has_routing(raw)),
            r matches Ok(c) ==> (raw.names matches Some(ns) && c.name@ == strip_leading_slash(
                ns@[0]@,
            )) && (raw.ports matches Some(ps) && c.public_ports@ == public_ports_of(ps@)) && (
            raw.labels matches Some(ls) && config_matches_labels(c.config, ls@)),
    {
        let names = match raw.names {
            Some(ns) => ns,
            None => {
                return Err(AdapterError::MissingName);
            },
        };
        if names.len() == 0 {
            return Err(AdapterError::MissingName);
        }
        let name0 = &names[0];
        let n0_len = name0.as_str().unicode_len();
        let name = if n0_len > 0 && name0.as_str().get_char(0) == '/' {
            let stripped = name0.as_str().substring_char(1, n0_len);
            proof {
                assert(stripped@ =~= name0@.drop_first());
            }
            String::from_str(stripped)
        } else {
            name0.clone()
        };
        let ports_list = match raw.ports {
            Some(ps) => ps,
            None => {
                return Err(AdapterError::MissingPorts);
            },
        };
        let mut public_ports: Vec<u16> = Vec::new();
        let mut pi: usize = 0;
        proof {
            assert(ports_list@.take(0) =~= Seq::<Option<u16>>::empty());
            assert(public_ports@ =~= public_ports_of(ports_list@.take(0)));
        }
        while pi < ports_list.len()
            invariant
                pi <= ports_list@.len(),
                public_ports@ == public_ports_of(ports_list@.take(pi as int)),
            decreases ports_list@.len() - pi,
        {
            proof {
                assert(ports_list@.take(pi + 1).drop_last() =~= ports_list@.take(pi as int));
                assert(ports_list@.take(pi + 1).last() == ports_list@[pi as int]);
            }
            match ports_list[pi] {
                Some(p) => {
                    public_ports.push(p);
                },
                None => {},
            }
            pi += 1;
        }
        proof {
            assert(ports_list@.take(ports_list@.len() as int) =~= ports_list@);
        }
        let labels = match raw.labels {
            Some(ls) => ls,
            None => {
                return Err(AdapterError::NoRoutingConfig);
            },
        };
        let config = match extract_traefik_config(&labels) {
            Some(c) => c,
            None => {
                return Err(AdapterError::NoRoutingConfig);
            },
        };
        Ok(TraefikedContainer { name, public_ports, config })
    }
}

/// With no router-rule key among the labels, no router pair is declared, so
/// the extractor's contract makes it return `None`.
pub proof fn lemma_no_router_keys_empty(labels: Seq<(String, String)>)
    requires
        forall|i: int| 0 <= i < labels.len() ==> !is_router_key((#[trigger] labels[i]).0@),
    ensures
        router_pairs_of(labels).len() == 0,
        !extractable(labels),
    decreases labels.len(),
{
    if labels.len() > 0 {
        assert(forall|i: int|
            0 <= i < labels.drop_last().len() ==> labels.drop_last()[i] == labels[i]);
        lemma_no_router_keys_empty(labels.drop_last());
    }
}

/// With exactly one router-rule key among the labels, exactly that key's
/// captured name and value form the declared router pair, whatever
/// service/port labels are present; the extractor's contract then makes it
/// return the single-port configuration made of that pair.
pub proof fn lemma_single_router_key(labels: Seq<(String, String)>, i: int)
    requires
        0 <= i < labels.len(),
        is_router_key(labels[i].0@),
        forall|j: int| 0 <= j < labels.len() && j != i ==> !is_router_key(
            (#[trigger] labels[j]).0@,
        ),
    ensures
        router_pairs_of(labels).len() == 1,
        router_pairs_of(labels)[0] == (router_name_of(labels[i].0@), labels[i].1@),
        extractable(labels),
    decreases labels.len(),
{
    assert(forall|j: int|
        0 <= j < labels.drop_last().len() ==> labels.drop_last()[j] == labels[j]);
    if i == labels.len() - 1 {
        lemma_no_router_keys_empty(labels.drop_last());
    } else {
        lemma_single_router_key(labels.drop_last(), i);
    }
}

/// A router/service count mismatch, with more than one router declared,
/// leaves the container unmanaged: the extractor's contract then makes it
/// return `None`.
pub proof fn lemma_arity_mismatch(labels: Seq<(String, String)>)
    requires
        router_pairs_of(labels).len() > 1,
        service_pairs_of(labels).len() != router_pairs_of(labels).len(),
    ensures
        !extractable(labels),
{
}

/// Sorting the declared router and service pairs keeps exactly the declared
/// pairs (as a multiset, hence also their counts) and orders them by name:
/// the multi-port pairing therefore joins the declared pairs positionally by
/// sorted name, never by discovery order.
pub proof fn lemma_sorted_pairing(labels: Seq<(String, String)>)
    ensures
        sorted_routers_of(labels).to_multiset() == router_pairs_of(labels).to_multiset(),
        sorted_services_of(labels).to_multiset() == service_pairs_of(labels).to_multiset(),
        sorted_routers_of(labels).len() == router_pairs_of(labels).len(),
        sorted_services_of(labels).len() == service_pairs_of(labels).len(),
        sorted_by(sorted_routers_of(labels), router_pair_le()),
        sorted_by(sorted_services_of(labels), service_pair_le()),
{
    broadcast use group_to_multiset_ensures;

    lemma_router_pair_le_total();
    lemma_service_pair_le_total();
    router_pairs_of(labels).lemma_sort_by_ensures(router_pair_le());
    service_pairs_of(labels).lemma_sort_by_ensures(service_pair_le());
    assert(sorted_routers_of(labels).to_multiset().len() == sorted_routers_of(labels).len());
    assert(router_pairs_of(labels).to_multiset().len() == router_pairs_of(labels).len());
    assert(sorted_services_of(labels).to_multiset().len() == sorted_services_of(labels).len());
    assert(service_pairs_of(labels).to_multiset().len() == service_pairs_of(labels).len());
}

} // verus!

