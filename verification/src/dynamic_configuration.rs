//! The routing configuration document and its builder.
//!
//! The document holds two maps whose entries stand in strictly ascending
//! lexicographic key order, so that serialization is deterministic whatever
//! the insertion order was. Backend URLs are produced by joining the base
//! address with a port through the `url` crate.

use vstd::prelude::*;
use vstd::string::StringExecFns;
use crate::strutil::{
    lemma_lex_lt_asymmetric, lemma_lex_lt_connected, lemma_lex_lt_irreflexive,
    lemma_lex_lt_transitive, lex_lt, str_eq_chars, str_lt,
};
use crate::{TraefikedContainer, TraefikedContainerConfig, TraefikedContainerMultiPortConfig};

verus! {

pub ghost struct RouterCfgView {
    pub rule: Seq<char>,
    pub service: Seq<char>,
}

pub ghost struct ServiceCfgView {
    pub urls: Seq<Seq<char>>,
}

pub ghost struct DocView {
    pub routers: Seq<(Seq<char>, RouterCfgView)>,
    pub services: Seq<(Seq<char>, ServiceCfgView)>,
}

/// A router entry: the matching rule and the service it routes to.
pub struct HttpRouterConfiguration {
    pub rule: String,
    pub service: String,
}

impl View for HttpRouterConfiguration {
    type V = RouterCfgView;

    open spec fn view(&self) -> RouterCfgView {
        RouterCfgView { rule: self.rule@, service: self.service@ }
    }
}

/// A single backend URL of a load-balanced service.
pub struct ServiceUrl {
    pub url: String,
}

impl ServiceUrl {
    pub fn new(url: String) -> (r: Self)
        ensures
            r.url == url,
    {
        Self { url }
    }
}

pub struct LoadBalancerHttpServiceConfiguration {
    pub servers: Vec<ServiceUrl>,
}

pub enum HttpServiceType {
    LoadBalancer(LoadBalancerHttpServiceConfiguration),
}

/// A service entry: a load balancer over its backend URLs.
pub struct HttpServiceConfiguration {
    pub service_type: HttpServiceType,
}

impl View for HttpServiceConfiguration {
    type V = ServiceCfgView;

    open spec fn view(&self) -> ServiceCfgView {
        match self.service_type {
            HttpServiceType::LoadBalancer(lb) => ServiceCfgView {
                urls: lb.servers@.map_values(|u: ServiceUrl| u.url@),
            },
        }
    }
}

/// A map from names to entries whose entry list stands in strictly
/// ascending lexicographic key order.
pub struct StrMap<T> {
    entries: Vec<(String, T)>,
}

impl<T: View> View for StrMap<T> {
    type V = Seq<(Seq<char>, <T as View>::V)>;

    closed spec fn view(&self) -> Seq<(Seq<char>, <T as View>::V)> {
        self.entries@.map_values(|e: (String, T)| (e.0@, e.1@))
    }
}

/// Strictly ascending key order: no two entries share a key and the keys
/// appear sorted lexicographically.
pub open spec fn strictly_sorted_keys<VV>(s: Seq<(Seq<char>, VV)>) -> bool {
    forall|i: int, j: int| 0 <= i < j < s.len() ==> lex_lt(#[trigger] s[i].0, #[trigger] s[j].0)
}

/// Insertion into a key-sorted entry list: an entry under an existing key
/// replaces it, any other entry enters at its ordered position.
pub open spec fn spec_insert<VV>(s: Seq<(Seq<char>, VV)>, k: Seq<char>, v: VV) -> Seq<
    (Seq<char>, VV),
>
    decreases s.len(),
{
    if s.len() == 0 {
        seq![(k, v)]
    } else if lex_lt(k, s[0].0) {
        seq![(k, v)] + s
    } else if k == s[0].0 {
        seq![(k, v)] + s.drop_first()
    } else {
        seq![s[0]] + spec_insert(s.drop_first(), k, v)
    }
}

/// Every key of the entry list after an insertion is the inserted key or a
/// key that was already there.
pub proof fn lemma_spec_insert_keys<VV>(s: Seq<(Seq<char>, VV)>, k: Seq<char>, v: VV)
    ensures
        forall|i: int|
            0 <= i < spec_insert(s, k, v).len() ==> ((#[trigger] spec_insert(s, k, v)[i]).0 == k
                || exists|j: int| 0 <= j < s.len() && (#[trigger] s[j]).0 == spec_insert(
                s,
                k,
                v,
            )[i].0),
    decreases s.len(),
{
    if s.len() == 0 {
    } else if lex_lt(k, s[0].0) {
    } else if k == s[0].0 {
        assert(forall|i: int|
            1 <= i < spec_insert(s, k, v).len() ==> spec_insert(s, k, v)[i] == s.drop_first()[i
                - 1] && s.drop_first()[i - 1] == s[i]);
    } else {
        lemma_spec_insert_keys(s.drop_first(), k, v);
        let r = spec_insert(s, k, v);
        let rr = spec_insert(s.drop_first(), k, v);
        assert forall|i: int| 0 <= i < r.len() implies ((#[trigger] r[i]).0 == k || exists|j: int|
            0 <= j < s.len() && (#[trigger] s[j]).0 == r[i].0) by {
            if i > 0 {
                assert(r[i] == rr[i - 1]);
                if rr[i - 1].0 != k {
                    let j = choose|j: int| 0 <= j < s.drop_first().len() && (#[trigger] s.drop_first()[j]).0
                        == rr[i - 1].0;
                    assert(s[j + 1].0 == r[i].0);
                }
            } else {
                assert(s[0].0 == r[0].0);
            }
        }
    }
}

/// Inserting keeps the keys strictly sorted: the map's entries stand in
/// lexicographic key order regardless of the order of insertions.
pub proof fn lemma_insert_keeps_sorted<VV>(s: Seq<(Seq<char>, VV)>, k: Seq<char>, v: VV)
    requires
        strictly_sorted_keys(s),
    ensures
        strictly_sorted_keys(spec_insert(s, k, v)),
    decreases s.len(),
{
    let r = spec_insert(s, k, v);
    if s.len() == 0 {
    } else if lex_lt(k, s[0].0) {
        assert forall|i: int, j: int| 0 <= i < j < r.len() implies lex_lt(
            #[trigger] r[i].0,
            #[trigger] r[j].0,
        ) by {
            if i == 0 && j > 1 {
                lemma_lex_lt_transitive(k, s[0].0, s[j - 1].0);
            }
        }
    } else if k == s[0].0 {
        assert forall|i: int, j: int| 0 <= i < j < r.len() implies lex_lt(
            #[trigger] r[i].0,
            #[trigger] r[j].0,
        ) by {
            if i == 0 {
                assert(r[j] == s.drop_first()[j - 1] && s.drop_first()[j - 1] == s[j]);
            } else {
                assert(r[i] == s[i] && r[j] == s[j]);
            }
        }
    } else {
        lemma_lex_lt_connected(k, s[0].0);
        assert(forall|i: int, j: int|
            0 <= i < j < s.drop_first().len() ==> lex_lt(
                (#[trigger] s.drop_first()[i]).0,
                (#[trigger] s.drop_first()[j]).0,
            ));
        lemma_insert_keeps_sorted(s.drop_first(), k, v);
        lemma_spec_insert_keys(s.drop_first(), k, v);
        let rr = spec_insert(s.drop_first(), k, v);
        assert forall|i: int, j: int| 0 <= i < j < r.len() implies lex_lt(
            #[trigger] r[i].0,
            #[trigger] r[j].0,
        ) by {
            if i == 0 {
                assert(r[j] == rr[j - 1]);
                if rr[j - 1].0 == k {
                    assert(lex_lt(s[0].0, k));
                } else {
                    let jj = choose|jj: int|
                        0 <= jj < s.drop_first().len() && (#[trigger] s.drop_first()[jj]).0 == rr[j
                            - 1].0;
                    assert(s.drop_first()[jj] == s[jj + 1]);
                    assert(lex_lt(s[0].0, s[jj + 1].0));
                }
            } else {
                assert(r[i] == rr[i - 1] && r[j] == rr[j - 1]);
            }
        }
    }
}

/// Inserting maps the key to the new value and changes nothing else: the
/// entry under the inserted key is exactly the new one (the last writer
/// wins), every other entry of the result was already in the map, and every
/// entry under another key survives.
pub proof fn lemma_spec_insert_lookup<VV>(s: Seq<(Seq<char>, VV)>, k: Seq<char>, v: VV)
    ensures
        exists|i: int|
            0 <= i < spec_insert(s, k, v).len() && #[trigger] spec_insert(s, k, v)[i] == (k, v),
        forall|i: int|
            0 <= i < spec_insert(s, k, v).len() && (#[trigger] spec_insert(s, k, v)[i]).0 != k
                ==> exists|j: int| 0 <= j < s.len() && #[trigger] s[j] == spec_insert(s, k, v)[i],
        forall|j: int|
            0 <= j < s.len() && (#[trigger] s[j]).0 != k ==> exists|i: int|
                0 <= i < spec_insert(s, k, v).len() && #[trigger] spec_insert(s, k, v)[i] == s[j],
    decreases s.len(),
{
    let r = spec_insert(s, k, v);
    if s.len() == 0 {
        assert(r[0] == (k, v));
    } else if lex_lt(k, s[0].0) {
        assert(r[0] == (k, v));
        assert(forall|i: int| 1 <= i < r.len() ==> #[trigger] r[i] == s[i - 1]);
        assert forall|j: int| 0 <= j < s.len() && (#[trigger] s[j]).0 != k implies exists|i: int|
            0 <= i < r.len() && #[trigger] r[i] == s[j] by {
            assert(r[j + 1] == s[j]);
        }
    } else if k == s[0].0 {
        assert(r[0] == (k, v));
        assert(forall|i: int|
            1 <= i < r.len() ==> #[trigger] r[i] == s.drop_first()[i - 1] && s.drop_first()[i - 1]
                == s[i]);
        assert forall|j: int| 0 <= j < s.len() && (#[trigger] s[j]).0 != k implies exists|i: int|
            0 <= i < r.len() && #[trigger] r[i] == s[j] by {
            assert(j != 0);
            assert(r[j] == s[j]);
        }
    } else {
        lemma_spec_insert_lookup(s.drop_first(), k, v);
        let rest = s.drop_first();
        let rr = spec_insert(rest, k, v);
        assert(forall|i: int| 1 <= i < r.len() ==> #[trigger] r[i] == rr[i - 1]);
        let wi = choose|i: int| 0 <= i < rr.len() && #[trigger] rr[i] == (k, v);
        assert(r[wi + 1] == (k, v));
        assert forall|i: int| 0 <= i < r.len() && (#[trigger] r[i]).0 != k implies exists|j: int|
            0 <= j < s.len() && #[trigger] s[j] == r[i] by {
            if i == 0 {
                assert(s[0] == r[0]);
            } else {
                let j = choose|j: int| 0 <= j < rest.len() && #[trigger] rest[j] == rr[i - 1];
                assert(s[j + 1] == r[i]);
            }
        }
        assert forall|j: int| 0 <= j < s.len() && (#[trigger] s[j]).0 != k implies exists|i: int|
            0 <= i < r.len() && #[trigger] r[i] == s[j] by {
            if j == 0 {
                assert(r[0] == s[0]);
            } else {
                assert(rest[j - 1] == s[j]);
                let i = choose|i: int| 0 <= i < rr.len() && #[trigger] rr[i] == rest[j - 1];
                assert(r[i + 1] == s[j]);
            }
        }
    }
}

/// Inserting a second, distinct key into a one-entry list places the two
/// entries in key order.
proof fn lemma_insert_into_singleton<VV>(ka: Seq<char>, va: VV, kb: Seq<char>, vb: VV)
    requires
        ka != kb,
    ensures
        lex_lt(kb, ka) ==> spec_insert(seq![(ka, va)], kb, vb) == seq![(kb, vb), (ka, va)],
        lex_lt(ka, kb) ==> spec_insert(seq![(ka, va)], kb, vb) == seq![(ka, va), (kb, vb)],
{
    let one = seq![(ka, va)];
    assert(one[0] == (ka, va));
    assert(one.drop_first() =~= Seq::<(Seq<char>, VV)>::empty());
    if lex_lt(kb, ka) {
        lemma_lex_lt_asymmetric(kb, ka);
        assert(spec_insert(one, kb, vb) =~= seq![(kb, vb), (ka, va)]);
    } else if lex_lt(ka, kb) {
        lemma_lex_lt_asymmetric(ka, kb);
        assert(spec_insert(one, kb, vb) == seq![one[0]] + spec_insert(one.drop_first(), kb, vb));
        assert(spec_insert(one.drop_first(), kb, vb) =~= seq![(kb, vb)]);
        assert(spec_insert(one, kb, vb) =~= seq![(ka, va), (kb, vb)]);
    }
}

/// Insertions under distinct keys commute: the map that results from two
/// insertions does not depend on their order, so the entry list the builder
/// accumulates is determined by what was inserted, not by when.
pub proof fn lemma_insert_commutes<VV>(
    s: Seq<(Seq<char>, VV)>,
    k1: Seq<char>,
    v1: VV,
    k2: Seq<char>,
    v2: VV,
)
    requires
        k1 != k2,
    ensures
        spec_insert(spec_insert(s, k1, v1), k2, v2) == spec_insert(spec_insert(s, k2, v2), k1, v1),
    decreases s.len(),
{
    lemma_lex_lt_connected(k1, k2);
    lemma_lex_lt_irreflexive(k1);
    lemma_lex_lt_irreflexive(k2);
    if lex_lt(k1, k2) {
        lemma_lex_lt_asymmetric(k1, k2);
    } else {
        lemma_lex_lt_asymmetric(k2, k1);
    }
    if s.len() == 0 {
        lemma_insert_into_singleton(k1, v1, k2, v2);
        lemma_insert_into_singleton(k2, v2, k1, v1);
        let a1 = spec_insert(s, k1, v1);
        let a2 = spec_insert(s, k2, v2);
        assert(a1 =~= seq![(k1, v1)]);
        assert(a2 =~= seq![(k2, v2)]);
        if lex_lt(k1, k2) {
            assert(spec_insert(a1, k2, v2) =~= seq![(k1, v1), (k2, v2)]);
            assert(spec_insert(a2, k1, v1) =~= seq![(k1, v1), (k2, v2)]);
        } else {
            assert(spec_insert(a1, k2, v2) =~= seq![(k2, v2), (k1, v1)]);
            assert(spec_insert(a2, k1, v1) =~= seq![(k2, v2), (k1, v1)]);
        }
    } else {
        let h = s[0];
        let rest = s.drop_first();
        lemma_lex_lt_connected(k1, h.0);
        lemma_lex_lt_connected(k2, h.0);
        if lex_lt(k1, h.0) {
            lemma_lex_lt_asymmetric(k1, h.0);
        }
        if lex_lt(k2, h.0) {
            lemma_lex_lt_asymmetric(k2, h.0);
        }
        if lex_lt(h.0, k1) && lex_lt(h.0, k2) {
            // Both keys land past the head: recurse on the tail.
            lemma_lex_lt_asymmetric(h.0, k1);
            lemma_lex_lt_asymmetric(h.0, k2);
            lemma_insert_commutes(rest, k1, v1, k2, v2);
            assert(spec_insert(s, k1, v1) == seq![h] + spec_insert(rest, k1, v1));
            assert((seq![h] + spec_insert(rest, k1, v1)).drop_first() =~= spec_insert(
                rest,
                k1,
                v1,
            ));
            assert(spec_insert(spec_insert(s, k1, v1), k2, v2) == seq![h] + spec_insert(
                spec_insert(rest, k1, v1),
                k2,
                v2,
            ));
            assert(spec_insert(s, k2, v2) == seq![h] + spec_insert(rest, k2, v2));
            assert((seq![h] + spec_insert(rest, k2, v2)).drop_first() =~= spec_insert(
                rest,
                k2,
                v2,
            ));
            assert(spec_insert(spec_insert(s, k2, v2), k1, v1) == seq![h] + spec_insert(
                spec_insert(rest, k2, v2),
                k1,
                v1,
            ));
        } else if lex_lt(k1, k2) {
            // k1 goes to or before the head, or k2 does not pass it: sort out
            // the three placements of the pair around the head.
            lemma_commute_low_high(s, k1, v1, k2, v2);
        } else {
            lemma_commute_low_high(s, k2, v2, k1, v1);
        }
    }
}

/// Helper for the commuting insertions: the case where `ka` sorts strictly
/// before `kb` and at least one of them does not land past the head entry.
proof fn lemma_commute_low_high<VV>(
    s: Seq<(Seq<char>, VV)>,
    ka: Seq<char>,
    va: VV,
    kb: Seq<char>,
    vb: VV,
)
    requires
        s.len() > 0,
        lex_lt(ka, kb),
        !(lex_lt(s[0].0, ka) && lex_lt(s[0].0, kb)),
    ensures
        spec_insert(spec_insert(s, ka, va), kb, vb) == spec_insert(spec_insert(s, kb, vb), ka, va),
{
    lemma_lex_lt_asymmetric(ka, kb);
    lemma_lex_lt_irreflexive(ka);
    lemma_lex_lt_irreflexive(kb);
    let h = s[0];
    let rest = s.drop_first();
    lemma_lex_lt_connected(ka, h.0);
    lemma_lex_lt_connected(kb, h.0);
    if lex_lt(ka, h.0) {
        lemma_lex_lt_asymmetric(ka, h.0);
    }
    if lex_lt(kb, h.0) {
        lemma_lex_lt_asymmetric(kb, h.0);
    }
    if lex_lt(h.0, ka) {
        lemma_lex_lt_asymmetric(h.0, ka);
        lemma_lex_lt_transitive(h.0, ka, kb);
        assert(false);
    } else if h.0 == ka {
        // ka replaces the head; kb goes past it either way.
        let sa = spec_insert(s, ka, va);
        assert(sa == seq![(ka, va)] + rest);
        assert(sa[0] == (ka, va));
        assert(sa.drop_first() =~= rest);
        assert(spec_insert(sa, kb, vb) == seq![(ka, va)] + spec_insert(rest, kb, vb));
        let sb = spec_insert(s, kb, vb);
        assert(sb == seq![h] + spec_insert(rest, kb, vb));
        assert(sb[0] == h);
        assert(sb.drop_first() =~= spec_insert(rest, kb, vb));
        assert(spec_insert(sb, ka, va) == seq![(ka, va)] + spec_insert(rest, kb, vb));
    } else {
        // ka enters strictly before the head.
        assert(lex_lt(ka, h.0));
        let sa = spec_insert(s, ka, va);
        assert(sa == seq![(ka, va)] + s);
        assert(sa[0] == (ka, va));
        assert(sa.drop_first() =~= s);
        assert(spec_insert(sa, kb, vb) == seq![(ka, va)] + spec_insert(s, kb, vb));
        let sb = spec_insert(s, kb, vb);
        if lex_lt(kb, h.0) {
            assert(sb == seq![(kb, vb)] + s);
            assert(sb[0] == (kb, vb));
            assert(spec_insert(sb, ka, va) == seq![(ka, va)] + sb);
        } else if kb == h.0 {
            assert(sb == seq![(kb, vb)] + rest);
            assert(sb[0] == (kb, vb));
            assert(spec_insert(sb, ka, va) == seq![(ka, va)] + sb);
        } else {
            assert(lex_lt(h.0, kb));
            lemma_lex_lt_asymmetric(h.0, kb);
            assert(sb == seq![h] + spec_insert(rest, kb, vb));
            assert(sb.len() > 0 && sb[0] == h);
            assert(spec_insert(sb, ka, va) == seq![(ka, va)] + sb);
        }
    }
}

proof fn lemma_spec_insert_at<VV>(s: Seq<(Seq<char>, VV)>, k: Seq<char>, v: VV, idx: int)
    requires
        0 <= idx <= s.len(),
        forall|j: int| 0 <= j < idx ==> lex_lt((#[trigger] s[j]).0, k),
        idx < s.len() ==> !lex_lt(s[idx].0, k),
    ensures
        (idx < s.len() && s[idx].0 == k) ==> spec_insert(s, k, v) == s.take(idx) + seq![(k, v)]
            + s.skip(idx + 1),
        (idx == s.len() || s[idx].0 != k) ==> spec_insert(s, k, v) == s.take(idx) + seq![(k, v)]
            + s.skip(idx),
    decreases idx,
{
    if idx == 0 {
        if s.len() == 0 {
            assert(spec_insert(s, k, v) =~= s.take(0) + seq![(k, v)] + s.skip(0));
        } else if s[0].0 == k {
            lemma_lex_lt_irreflexive(k);
            assert(spec_insert(s, k, v) =~= s.take(0) + seq![(k, v)] + s.skip(1));
        } else {
            lemma_lex_lt_connected(k, s[0].0);
            assert(lex_lt(k, s[0].0));
            assert(spec_insert(s, k, v) =~= s.take(0) + seq![(k, v)] + s.skip(0));
        }
    } else {
        assert(lex_lt(s[0].0, k));
        lemma_lex_lt_irreflexive(k);
        lemma_lex_lt_asymmetric(s[0].0, k);
        assert(k != s[0].0);
        let rest = s.drop_first();
        assert(forall|j: int| 0 <= j < idx - 1 ==> lex_lt((#[trigger] rest[j]).0, k));
        lemma_spec_insert_at(rest, k, v, idx - 1);
        if idx < s.len() && s[idx].0 == k {
            assert(rest[idx - 1].0 == k);
            assert(spec_insert(s, k, v) =~= s.take(idx) + seq![(k, v)] + s.skip(idx + 1)) by {
                assert(spec_insert(s, k, v) == seq![s[0]] + spec_insert(rest, k, v));
                assert(spec_insert(rest, k, v) == rest.take(idx - 1) + seq![(k, v)] + rest.skip(
                    idx,
                ));
            }
        } else {
            assert(idx == s.len() || rest[idx - 1].0 != k);
            assert(spec_insert(s, k, v) =~= s.take(idx) + seq![(k, v)] + s.skip(idx)) by {
                assert(spec_insert(s, k, v) == seq![s[0]] + spec_insert(rest, k, v));
                assert(spec_insert(rest, k, v) == rest.take(idx - 1) + seq![(k, v)] + rest.skip(
                    idx - 1,
                ));
            }
        }
    }
}

fn find_insert_pos<T>(entries: &Vec<(String, T)>, k: &str) -> (idx: usize)
    ensures
        idx <= entries@.len(),
        forall|j: int| 0 <= j < idx ==> lex_lt((#[trigger] entries@[j]).0@, k@),
        idx < entries@.len() ==> !lex_lt(entries@[idx as int].0@, k@),
{
    let mut idx: usize = 0;
    while idx < entries.len() && str_lt(entries[idx].0.as_str(), k)
        invariant
            idx <= entries@.len(),
            forall|j: int| 0 <= j < idx ==> lex_lt((#[trigger] entries@[j]).0@, k@),
        decreases entries@.len() - idx,
    {
        idx += 1;
    }
    idx
}

impl<T: View> StrMap<T> {
    pub fn new() -> (r: StrMap<T>)
        ensures
            r@ == Seq::<(Seq<char>, <T as View>::V)>::empty(),
    {
        let r = StrMap { entries: Vec::new() };
        proof {
            assert(r@ =~= Seq::<(Seq<char>, <T as View>::V)>::empty());
        }
        r
    }

    pub fn len(&self) -> (r: usize)
        ensures
            r == self@.len(),
    {
        self.entries.len()
    }

    pub fn key_at(&self, i: usize) -> (r: &String)
        requires
            i < self@.len(),
        ensures
            r@ == self@[i as int].0,
    {
        &self.entries[i].0
    }

    pub fn value_at(&self, i: usize) -> (r: &T)
        requires
            i < self@.len(),
        ensures
            r@ == self@[i as int].1,
    {
        &self.entries[i].1
    }

    /// Inserts an entry; an entry already standing under the same key is
    /// replaced, last writer wins.
    pub fn insert(&mut self, k: String, v: T)
        ensures
            final(self)@ == spec_insert(old(self)@, k@, v@),
    {
        let ghost s = self@;
        let ghost oe = self.entries@;
        let idx = find_insert_pos(&self.entries, k.as_str());
        proof {
            assert(forall|j: int| 0 <= j < idx ==> (#[trigger] s[j]).0 == oe[j].0@);
            assert(idx < s.len() ==> s[idx as int].0 == oe[idx as int].0@);
        }
        if idx < self.entries.len() && str_eq_chars(self.entries[idx].0.as_str(), k.as_str()) {
            proof {
                lemma_spec_insert_at(s, k@, v@, idx as int);
            }
            self.entries.remove(idx);
            self.entries.insert(idx, (k, v));
            proof {
                assert(self.entries@ =~= oe.remove(idx as int).insert(idx as int, (k, v)));
                assert(self@ =~= s.take(idx as int) + seq![(k@, v@)] + s.skip(idx as int + 1));
            }
        } else {
            proof {
                lemma_spec_insert_at(s, k@, v@, idx as int);
            }
            self.entries.insert(idx, (k, v));
            proof {
                assert(self.entries@ =~= oe.insert(idx as int, (k, v)));
                assert(self@ =~= s.take(idx as int) + seq![(k@, v@)] + s.skip(idx as int));
            }
        }
    }
}

/// The serialization of the base address with its port replaced by the given
/// port, where the base parses as an absolute URL that can carry a port.
pub uninterp spec fn with_port_of(base: Seq<char>, port: u16) -> Option<Seq<char>>;

/// Relies on `url::Url::parse`, `url::Url::set_port` and the URL's string
/// serialization: all three depend on the base string and the port alone,
/// so the outcome is named by `with_port_of`; `set_port` fails exactly on
/// URLs that cannot carry a port (no host, an empty domain, or the `file`
/// scheme), and `parse` on strings that are no absolute URL.
#[verifier::external_body]
fn url_with_port(base: &str, port: u16) -> (r: Option<String>)
    ensures
        (r is Some) == (with_port_of(base@, port) is Some),
        r matches Some(u) ==> with_port_of(base@, port) == Some(u@),
{
    match url::Url::parse(base) {
        Ok(mut parsed) => match parsed.set_port(Some(port)) {
            Ok(()) => Some(parsed.to_string()),
            Err(()) => None,
        },
        Err(_) => None,
    }
}

/// The immutable configuration document: routers and services, each in
/// strictly ascending key order.
pub struct HttpConfiguration {
    pub routers: StrMap<HttpRouterConfiguration>,
    pub services: StrMap<HttpServiceConfiguration>,
}

pub struct DynamicConfiguration {
    pub http: HttpConfiguration,
}

impl View for DynamicConfiguration {
    type V = DocView;

    open spec fn view(&self) -> DocView {
        DocView { routers: self.http.routers@, services: self.http.services@ }
    }
}

impl DynamicConfiguration {
    pub open spec fn wf(self) -> bool {
        strictly_sorted_keys(self@.routers) && strictly_sorted_keys(self@.services)
    }
}

#[derive(Clone, Debug)]
pub enum BuildError {
    NoPublicPort(String),
    InvalidBaseUrl,
}

impl BuildError {
    /// A human-readable message for the error, as the service reports it.
    pub fn describe(&self) -> String {
        match self {
            BuildError::NoPublicPort(name) => {
                let mut m = String::from_str("No public port specified for container '");
                m.append(name.as_str());
                m.append("'");
                m
            },
            BuildError::InvalidBaseUrl => String::from_str(
                "Cannot append container public port to base_url.",
            ),
        }
    }
}

/// The router entry a multi-port entry inserts.
pub open spec fn router_cfg_of_entry(e: TraefikedContainerMultiPortConfig) -> RouterCfgView {
    RouterCfgView { rule: e.config.rule@, service: e.service_name@ }
}

/// The builder state after the multi-port entries are added in order, or
/// `None` where some entry's target port cannot be joined to the base.
pub open spec fn add_multi(
    routers: Seq<(Seq<char>, RouterCfgView)>,
    services: Seq<(Seq<char>, ServiceCfgView)>,
    entries: Seq<TraefikedContainerMultiPortConfig>,
    base: Seq<char>,
) -> Option<(Seq<(Seq<char>, RouterCfgView)>, Seq<(Seq<char>, ServiceCfgView)>)>
    decreases entries.len(),
{
    if entries.len() == 0 {
        Some((routers, services))
    } else {
        let e = entries[0];
        match with_port_of(base, e.target_port) {
            Some(u) => add_multi(
                spec_insert(routers, e.config.router_name@, router_cfg_of_entry(e)),
                spec_insert(services, e.service_name@, (ServiceCfgView { urls: seq![u] })),
                entries.drop_first(),
                base,
            ),
            None => None,
        }
    }
}

/// Accumulates containers into the routing configuration document.
pub struct DynamicConfigurationBuilder {
    pub routers: StrMap<HttpRouterConfiguration>,
    pub services: StrMap<HttpServiceConfiguration>,
    pub base_url: String,
}

impl DynamicConfigurationBuilder {
    pub open spec fn wf(self) -> bool {
        strictly_sorted_keys(self.routers@) && strictly_sorted_keys(self.services@)
    }

    pub fn new(base_url: String) -> (r: DynamicConfigurationBuilder)
        ensures
            r.routers@ == Seq::<(Seq<char>, RouterCfgView)>::empty(),
            r.services@ == Seq::<(Seq<char>, ServiceCfgView)>::empty(),
            r.base_url == base_url,
            r.wf(),
    {
        DynamicConfigurationBuilder {
            routers: StrMap::new(),
            services: StrMap::new(),
            base_url,
        }
    }

    /// Adds one container's routes and services.
    ///
    /// A single-port container registers its container name as the service,
    /// backed by the base address carrying the container's first published
    /// port; it must have a published port. A multi-port container registers
    /// one router and one service per entry, each backed by the base address
    /// carrying the entry's target port. Either way an entry under an
    /// existing name replaces it, and a base address that cannot carry a
    /// port fails the whole call.
    #[verifier::loop_isolation(false)]
    pub fn add_container(self, container: &TraefikedContainer) -> (r: Result<
        DynamicConfigurationBuilder,
        BuildError,
    >)
        requires
            self.wf(),
        ensures
            container.config matches TraefikedContainerConfig::SinglePort(cfg) ==> (
            if container.public_ports@.len() == 0 {
                r == Result::<DynamicConfigurationBuilder, BuildError>::Err(
                    BuildError::NoPublicPort(container.name),
                )
            } else if with_port_of(self.base_url@, container.public_ports@[0]) is None {
                r == Result::<DynamicConfigurationBuilder, BuildError>::Err(
                    BuildError::InvalidBaseUrl,
                )
            } else {
                r matches Ok(b) && b.base_url == self.base_url && b.wf() && b.routers@
                    == spec_insert(
                    self.routers@,
                    cfg.router_name@,
                    (RouterCfgView { rule: cfg.rule@, service: container.name@ }),
                ) && b.services@ == spec_insert(
                    self.services@,
                    container.name@,
                    (ServiceCfgView {
                        urls: seq![with_port_of(self.base_url@, container.public_ports@[0])->0],
                    }),
                )
            }),
            container.config matches TraefikedContainerConfig::MultiplePorts(entries) ==> (
            match add_multi(self.routers@, self.services@, entries@, self.base_url@) {
                Some(maps) => r matches Ok(b) && b.base_url == self.base_url && b.wf()
                    && b.routers@ == maps.0 && b.services@ == maps.1,
                None => r == Result::<DynamicConfigurationBuilder, BuildError>::Err(
                    BuildError::InvalidBaseUrl,
                ),
            }),
    {
        let ghost orig = self;
        let mut b = self;
        match &container.config {
            TraefikedContainerConfig::SinglePort(cfg) => {
                if container.public_ports.len() == 0 {
                    return Err(BuildError::NoPublicPort(container.name.clone()));
                }
                let port = container.public_ports[0];
                let url = match url_with_port(b.base_url.as_str(), port) {
                    Some(u) => u,
                    None => {
                        return Err(BuildError::InvalidBaseUrl);
                    },
                };
                let ghost uv = url@;
                let service_cfg = HttpServiceConfiguration {
                    service_type: HttpServiceType::LoadBalancer(
                        LoadBalancerHttpServiceConfiguration {
                            servers: vec![ServiceUrl::new(url)],
                        },
                    ),
                };
                proof {
                    assert(service_cfg@.urls =~= seq![uv]);
                    assert(service_cfg@ =~= (ServiceCfgView { urls: seq![uv] }));
                }
                b.services.insert(container.name.clone(), service_cfg);
                b.routers.insert(
                    cfg.router_name.clone(),
                    HttpRouterConfiguration {
                        rule: cfg.rule.clone(),
                        service: container.name.clone(),
                    },
                );
                proof {
                    lemma_insert_keeps_sorted(orig.routers@, cfg.router_name@, (RouterCfgView {
                        rule: cfg.rule@,
                        service: container.name@,
                    }));
                    lemma_insert_keeps_sorted(orig.services@, container.name@, (ServiceCfgView {
                        urls: seq![uv],
                    }));
                }
                Ok(b)
            },
            TraefikedContainerConfig::MultiplePorts(entries) => {
                let mut i: usize = 0;
                proof {
                    assert(entries@.skip(0) =~= entries@);
                }
                while i < entries.len()
                    invariant
                        i <= entries@.len(),
                        b.wf(),
                        b.base_url == orig.base_url,
                        add_multi(orig.routers@, orig.services@, entries@, orig.base_url@)
                            == add_multi(
                            b.routers@,
                            b.services@,
                            entries@.skip(i as int),
                            orig.base_url@,
                        ),
                    decreases entries@.len() - i,
                {
                    let e = &entries[i];
                    proof {
                        assert(entries@.skip(i as int)[0] == entries@[i as int]);
                        assert(entries@.skip(i as int).drop_first() =~= entries@.skip(i + 1));
                    }
                    let url = match url_with_port(b.base_url.as_str(), e.target_port) {
                        Some(u) => u,
                        None => {
                            proof {
                                assert(entries@.skip(i as int).len() > 0);
                                assert(add_multi(
                                    b.routers@,
                                    b.services@,
                                    entries@.skip(i as int),
                                    orig.base_url@,
                                ) is None);
                                assert(add_multi(
                                    orig.routers@,
                                    orig.services@,
                                    entries@,
                                    orig.base_url@,
                                ) is None);
                            }
                            return Err(BuildError::InvalidBaseUrl);
                        },
                    };
                    let ghost uv = url@;
                    let ghost pre_routers = b.routers@;
                    let ghost pre_services = b.services@;
                    let service_cfg = HttpServiceConfiguration {
                        service_type: HttpServiceType::LoadBalancer(
                            LoadBalancerHttpServiceConfiguration {
                                servers: vec![ServiceUrl::new(url)],
                            },
                        ),
                    };
                    proof {
                        assert(service_cfg@.urls =~= seq![uv]);
                        assert(service_cfg@ =~= (ServiceCfgView { urls: seq![uv] }));
                    }
                    b.services.insert(e.service_name.clone(), service_cfg);
                    b.routers.insert(
                        e.config.router_name.clone(),
                        HttpRouterConfiguration {
                            rule: e.config.rule.clone(),
                            service: e.service_name.clone(),
                        },
                    );
                    proof {
                        lemma_insert_keeps_sorted(
                            pre_routers,
                            e.config.router_name@,
                            router_cfg_of_entry(*e),
                        );
                        lemma_insert_keeps_sorted(pre_services, e.service_name@, (ServiceCfgView {
                            urls: seq![uv],
                        }));
                        assert(b.routers@ == spec_insert(
                            pre_routers,
                            e.config.router_name@,
                            router_cfg_of_entry(*e),
                        ));
                    }
                    i += 1;
                }
                proof {
                    assert(entries@.skip(entries@.len() as int) =~= Seq::<
                        TraefikedContainerMultiPortConfig,
                    >::empty());
                }
                Ok(b)
            },
        }
    }

    /// Seals the accumulated maps into the immutable document.
    pub fn build(self) -> (r: DynamicConfiguration)
        ensures
            r@.routers == self.routers@,
            r@.services == self.services@,
            self.wf() ==> r.wf(),
    {
        DynamicConfiguration {
            http: HttpConfiguration { routers: self.routers, services: self.services },
        }
    }
}

// The serialized document shape, stated character by character.
pub open spec fn router_entry_yaml(e: (Seq<char>, RouterCfgView)) -> Seq<char> {
    "    "@ + e.0 + ":\n      rule: "@ + e.1.rule + "\n      service: "@ + e.1.service + "\n"@
}

pub open spec fn router_entries_yaml(s: Seq<(Seq<char>, RouterCfgView)>) -> Seq<char>
    decreases s.len(),
{
    if s.len() == 0 {
        Seq::empty()
    } else {
        router_entries_yaml(s.drop_last()) + router_entry_yaml(s.last())
    }
}

pub open spec fn routers_yaml(s: Seq<(Seq<char>, RouterCfgView)>) -> Seq<char> {
    if s.len() == 0 {
        "  routers: {}\n"@
    } else {
        "  routers:\n"@ + router_entries_yaml(s)
    }
}

pub open spec fn url_entry_yaml(u: Seq<char>) -> Seq<char> {
    "        - url: "@ + u + "\n"@
}

pub open spec fn url_entries_yaml(us: Seq<Seq<char>>) -> Seq<char>
    decreases us.len(),
{
    if us.len() == 0 {
        Seq::empty()
    } else {
        url_entries_yaml(us.drop_last()) + url_entry_yaml(us.last())
    }
}

pub open spec fn service_entry_yaml(e: (Seq<char>, ServiceCfgView)) -> Seq<char> {
    "    "@ + e.0 + ":\n      loadBalancer:\n"@ + (if e.1.urls.len() == 0 {
        "        servers: []\n"@
    } else {
        "        servers:\n"@ + url_entries_yaml(e.1.urls)
    })
}

pub open spec fn service_entries_yaml(s: Seq<(Seq<char>, ServiceCfgView)>) -> Seq<char>
    decreases s.len(),
{
    if s.len() == 0 {
        Seq::empty()
    } else {
        service_entries_yaml(s.drop_last()) + service_entry_yaml(s.last())
    }
}

pub open spec fn services_yaml(s: Seq<(Seq<char>, ServiceCfgView)>) -> Seq<char> {
    if s.len() == 0 {
        "  services: {}\n"@
    } else {
        "  services:\n"@ + service_entries_yaml(s)
    }
}

/// The full document text: the `http` block, then the routers and services
/// in the order their entries stand in the maps.
pub open spec fn yaml_of(d: DocView) -> Seq<char> {
    "http:\n"@ + routers_yaml(d.routers) + services_yaml(d.services)
}

impl DynamicConfiguration {
    /// Serializes the document in its configuration format, exactly as
    /// `yaml_of` states it.
    #[verifier::loop_isolation(false)]
    #[verifier::rlimit(100)]
    pub fn to_yaml(&self) -> (r: String)
        ensures
            r@ == yaml_of(self@),
    {
        let mut out = String::new();
        out.append("http:\n");
        let rlen = self.http.routers.len();
        if rlen == 0 {
            out.append("  routers: {}\n");
        } else {
            out.append("  routers:\n");
            let ghost rs = self@.routers;
            let mut i: usize = 0;
            proof {
                assert(rs.take(0) =~= Seq::<(Seq<char>, RouterCfgView)>::empty());
                assert(out@ =~= "http:\n"@ + "  routers:\n"@ + router_entries_yaml(rs.take(0)));
            }
            while i < rlen
                invariant
                    i <= rlen,
                    out@ == "http:\n"@ + "  routers:\n"@ + router_entries_yaml(rs.take(i as int)),
                decreases rlen - i,
            {
                let key = self.http.routers.key_at(i);
                let val = self.http.routers.value_at(i);
                out.append("    ");
                out.append(key.as_str());
                out.append(":\n      rule: ");
                out.append(val.rule.as_str());
                out.append("\n      service: ");
                out.append(val.service.as_str());
                out.append("\n");
                proof {
                    assert(rs.take(i + 1).drop_last() =~= rs.take(i as int));
                    assert(rs.take(i + 1).last() == rs[i as int]);
                    assert(out@ =~= "http:\n"@ + "  routers:\n"@ + router_entries_yaml(
                        rs.take(i + 1),
                    ));
                }
                i += 1;
            }
            proof {
                assert(rs.take(rlen as int) =~= rs);
            }
        }
        let slen = self.http.services.len();
        if slen == 0 {
            out.append("  services: {}\n");
        } else {
            out.append("  services:\n");
            let ghost pre = out@;
            let ghost ss = self@.services;
            proof {
                assert(pre =~= "http:\n"@ + routers_yaml(self@.routers) + "  services:\n"@);
            }
            let mut i: usize = 0;
            proof {
                assert(ss.take(0) =~= Seq::<(Seq<char>, ServiceCfgView)>::empty());
                assert(out@ =~= pre + service_entries_yaml(ss.take(0)));
            }
            while i < slen
                invariant
                    i <= slen,
                    out@ == pre + service_entries_yaml(ss.take(i as int)),
                decreases slen - i,
            {
                let key = self.http.services.key_at(i);
                let val = self.http.services.value_at(i);
                out.append("    ");
                out.append(key.as_str());
                out.append(":\n      loadBalancer:\n");
                let ghost entry_pre = out@;
                match &val.service_type {
                    HttpServiceType::LoadBalancer(lb) => {
                        let ulen = lb.servers.len();
                        let ghost urls = ss[i as int].1.urls;
                        proof {
                            assert(urls == lb.servers@.map_values(|u: ServiceUrl| u.url@));
                            assert(urls.len() == ulen);
                        }
                        if ulen == 0 {
                            out.append("        servers: []\n");
                        } else {
                            out.append("        servers:\n");
                            let ghost upre = out@;
                            let mut j: usize = 0;
                            proof {
                                assert(urls.take(0) =~= Seq::<Seq<char>>::empty());
                                assert(out@ =~= upre + url_entries_yaml(urls.take(0)));
                            }
                            while j < ulen
                                invariant
                                    j <= ulen,
                                    out@ == upre + url_entries_yaml(urls.take(j as int)),
                                decreases ulen - j,
                            {
                                out.append("        - url: ");
                                out.append(lb.servers[j].url.as_str());
                                out.append("\n");
                                proof {
                                    assert(urls.take(j + 1).drop_last() =~= urls.take(j as int));
                                    assert(urls.take(j + 1).last() == urls[j as int]);
                                    assert(urls[j as int] == lb.servers@[j as int].url@);
                                    assert(out@ =~= upre + url_entries_yaml(urls.take(j + 1)));
                                }
                                j += 1;
                            }
                            proof {
                                assert(urls.take(ulen as int) =~= urls);
                            }
                        }
                    },
                }
                proof {
                    assert(ss.take(i + 1).drop_last() =~= ss.take(i as int));
                    assert(ss.take(i + 1).last() == ss[i as int]);
                    assert(out@ =~= pre + service_entries_yaml(ss.take(i + 1)));
                }
                i += 1;
            }
            proof {
                assert(ss.take(slen as int) =~= ss);
            }
        }
        proof {
            assert(out@ =~= yaml_of(self@));
        }
        out
    }
}

/// Serialization is deterministic: equal documents serialize to identical
/// text, so serializing the same document twice gives the same bytes.
pub proof fn lemma_yaml_deterministic(a: DynamicConfiguration, b: DynamicConfiguration)
    requires
        a@ == b@,
    ensures
        yaml_of(a@) == yaml_of(b@),
{
}

} // verus!
