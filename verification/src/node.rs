use vstd::prelude::*;

use crate::data::{clone_bytes, empty_data_model, Data, DataModel};
use crate::key::{fingerprint_of, Key};
use crate::kclosest::{
    distinct_peer_keys, has_peer_key, is_k_closest, k_closest_of_entries,
    lemma_k_closest_transfer, sorted_by_distance, sound_peers, K_CLOSEST,
};
use crate::store::{KeyTable, NameTable};
use crate::wire::{empty_peer_model, peer_view, Message, MessageModel, MsgType};
use rand::Rng;

verus! {

/// What an inbound request asks the dispatch loop to do.
#[derive(PartialEq, Eq, Structural, Clone, Copy, Debug)]
pub enum DhtKind {
    KPeers,
    Insert,
    Providers,
}

/// A request as it travels between a connection and the dispatch loop.
pub struct DHTMessage {
    pub type_of: DhtKind,
    pub sending_node: (Key, Vec<u8>),
    pub key: (Key, Vec<u8>),
    pub keys: Vec<(Key, Vec<u8>)>,
    pub data: (Key, Data),
    pub providers: Vec<(Vec<u8>, Key)>,
    pub name: Vec<u8>,
}

/// The address at which the designated bootstrap node listens.
pub open spec fn boot_addr() -> Seq<u8> {
    // "127.0.0.1:12345"
    seq![
        0x31u8,
        0x32,
        0x37,
        0x2e,
        0x30,
        0x2e,
        0x30,
        0x2e,
        0x31,
        0x3a,
        0x31,
        0x32,
        0x33,
        0x34,
        0x35,
    ]
}

/// The well-known bootstrap address as bytes.
pub fn bootstrap_address() -> (r: Vec<u8>)
    ensures
        r@ == boot_addr(),
{
    let mut r: Vec<u8> = Vec::new();
    r.push(0x31);
    r.push(0x32);
    r.push(0x37);
    r.push(0x2e);
    r.push(0x30);
    r.push(0x2e);
    r.push(0x30);
    r.push(0x2e);
    r.push(0x31);
    r.push(0x3a);
    r.push(0x31);
    r.push(0x32);
    r.push(0x33);
    r.push(0x34);
    r.push(0x35);
    assert(r@ =~= boot_addr());
    r
}

/// The identifier reserved for the bootstrap node.
pub open spec fn boot_key() -> Key {
    Key { key: 1 }
}

/// Relies on rand::thread_rng and Rng::gen: a random 32-bit value, of which
/// nothing is promised.
#[verifier::external_body]
fn random_u32() -> u32 {
    rand::thread_rng().gen::<u32>()
}

/// One node: its identity and its three shared tables.
pub struct Client {
    pub host: Vec<u8>,
    pub key: Key,
    pub known_nodes: KeyTable<Vec<u8>>,
    pub local_hash: KeyTable<Data>,
    pub providers: NameTable,
}

/// What a request message that this node sends looks like.
pub open spec fn request_model(
    t: MsgType,
    self_key: Key,
    host: Seq<u8>,
    to: (Key, Seq<u8>),
    key: (Key, Seq<u8>),
    dk: Key,
    d: DataModel,
) -> MessageModel {
    MessageModel {
        type_of: t,
        from: (self_key, host),
        to,
        key,
        keys: Seq::empty(),
        providers: Seq::empty(),
        data: (dk, d),
    }
}

/// What a k-closest selection that leaves one node out must be.
pub open spec fn is_k_closest_excl(
    r: Seq<(Key, Vec<u8>)>,
    m: Map<Key, Seq<u8>>,
    n_excl: int,
    target: Key,
    excl: Key,
) -> bool {
    &&& r.len() == vstd::math::min(K_CLOSEST as int, n_excl)
    &&& sorted_by_distance(r, target)
    &&& sound_peers(r, m)
    &&& distinct_peer_keys(r)
    &&& forall|i: int| 0 <= i < r.len() ==> (#[trigger] r[i]).0 != excl
    &&& forall|k: Key, i: int|
        #![trigger m.contains_key(k), r[i]]
        m.contains_key(k) && k != excl && 0 <= i < r.len() && !has_peer_key(r, k) ==> (r[i].0.key
            ^ target.key) <= (k.key ^ target.key)
}

/// A peer list that matches another one pairwise is a k-closest-but-one
/// selection whenever the other is.
pub proof fn lemma_k_closest_excl_transfer(
    a: Seq<(Key, Vec<u8>)>,
    b: Seq<(Key, Vec<u8>)>,
    m: Map<Key, Seq<u8>>,
    n_excl: int,
    target: Key,
    excl: Key,
)
    requires
        is_k_closest_excl(a, m, n_excl, target, excl),
        b.len() == a.len(),
        forall|i: int|
            0 <= i < b.len() ==> (#[trigger] b[i]).0 == a[i].0 && b[i].1@ == a[i].1@,
    ensures
        is_k_closest_excl(b, m, n_excl, target, excl),
{
    assert forall|k: Key| has_peer_key(b, k) == has_peer_key(a, k) by {
        if has_peer_key(b, k) {
            let j = choose|j: int| 0 <= j < b.len() && (#[trigger] b[j]).0 == k;
            assert(a[j].0 == k);
        }
        if has_peer_key(a, k) {
            let j = choose|j: int| 0 <= j < a.len() && (#[trigger] a[j]).0 == k;
            assert(b[j].0 == k);
        }
    }
    assert forall|k: Key, i: int|
        #![trigger m.contains_key(k), b[i]]
        m.contains_key(k) && k != excl && 0 <= i < b.len() && !has_peer_key(b, k) implies (
    b[i].0.key ^ target.key) <= (k.key ^ target.key) by {
        assert(a[i] == a[i]);
    }
    assert forall|i: int| 0 <= i < b.len() implies m.contains_key((#[trigger] b[i]).0) && b[i].1@
        == m[b[i].0] && b[i].0 != excl by {
        assert(a[i] == a[i]);
    }
}

impl Client {
    /// Builds a fresh node for the given local address. The bootstrap node
    /// recognises its own well-known address, takes the reserved identifier
    /// and starts with an empty routing table; every other node starts with
    /// the bootstrap node as its only known peer and a random identifier.
    pub fn new(host: Vec<u8>, port: Vec<u8>) -> (r: Client)
        ensures
            r.host@ == host@ + seq![0x3au8] + port@,
            r.host@ == boot_addr() ==> r.key == boot_key() && r.known_nodes@ == Map::<
                Key,
                Seq<u8>,
            >::empty(),
            r.host@ != boot_addr() ==> r.known_nodes@ == Map::<Key, Seq<u8>>::empty().insert(
                boot_key(),
                boot_addr(),
            ),
            r.local_hash@ == Map::<Key, DataModel>::empty(),
            r.providers@ == Map::<Seq<u8>, Key>::empty(),
            r.known_nodes.entry_seq().len() <= 1,
    {
        let mut address = host;
        address.push(0x3a);
        let mut p = port;
        let mut i: usize = 0;
        let ghost host_colon = address@;
        while i < p.len()
            invariant
                i <= p@.len(),
                address@ == host_colon + p@.subrange(0, i as int),
                host_colon == host_colon,
            decreases p@.len() - i,
        {
            address.push(p[i]);
            i = i + 1;
            assert(address@ =~= host_colon + p@.subrange(0, i as int));
        }
        assert(address@ =~= host_colon + p@);

        let boot = bootstrap_address();
        let is_bootnode = crate::data::bytes_eq(&address, &boot);
        let mut known_nodes: KeyTable<Vec<u8>> = KeyTable::new();
        let new_key = if is_bootnode {
            Key { key: 1 }
        } else {
            known_nodes.insert(Key { key: 1 }, boot);
            Key { key: random_u32() }
        };
        Client {
            host: address,
            key: new_key,
            known_nodes,
            local_hash: KeyTable::new(),
            providers: NameTable::new(),
        }
    }

    /// A copy of every routing entry.
    fn snapshot_entries(&self) -> (r: Vec<(Key, Vec<u8>)>)
        ensures
            r@.len() == self.known_nodes.entry_seq().len(),
            crate::store::unique_keys(r@),
            forall|i: int|
                0 <= i < r@.len() ==> (#[trigger] r@[i]).0 == self.known_nodes.entry_seq()[i].0
                    && r@[i].1@ == self.known_nodes.entry_seq()[i].1@,
            sound_peers(r@, self.known_nodes@),
    {
        self.known_nodes.entries_facts();
        let n = self.known_nodes.num_entries();
        let mut r: Vec<(Key, Vec<u8>)> = Vec::new();
        let mut i: usize = 0;
        while i < n
            invariant
                n == self.known_nodes.entry_seq().len(),
                i <= n,
                r@.len() == i,
                forall|j: int|
                    0 <= j < i ==> (#[trigger] r@[j]).0 == self.known_nodes.entry_seq()[j].0
                        && r@[j].1@ == self.known_nodes.entry_seq()[j].1@,
            decreases n - i,
        {
            let e = self.known_nodes.entry_at(i);
            r.push((e.0, clone_bytes(&e.1)));
            i = i + 1;
        }
        r
    }

    /// A copy of every routing entry but the one under the given identifier.
    fn snapshot_entries_excluding(&self, excl: Key) -> (r: Vec<(Key, Vec<u8>)>)
        ensures
            crate::store::unique_keys(r@),
            sound_peers(r@, self.known_nodes@),
            forall|i: int| 0 <= i < r@.len() ==> (#[trigger] r@[i]).0 != excl,
            r@.len() == self.known_nodes.entry_seq().len() - (if self.known_nodes@.contains_key(
                excl,
            ) {
                1int
            } else {
                0
            }),
            forall|k: Key|
                self.known_nodes@.contains_key(k) && k != excl ==> exists|x: int|
                    0 <= x < r@.len() && (#[trigger] r@[x]).0 == k,
    {
        self.known_nodes.entries_facts();
        let ghost es = self.known_nodes.entry_seq();
        let n = self.known_nodes.num_entries();
        let mut r: Vec<(Key, Vec<u8>)> = Vec::new();
        let mut found: bool = false;
        let mut i: usize = 0;
        while i < n
            invariant
                n == es.len(),
                es == self.known_nodes.entry_seq(),
                crate::store::unique_keys(es),
                i <= n,
                r@.len() == i - (if found {
                    1int
                } else {
                    0
                }),
                found <==> exists|j: int| 0 <= j < i && (#[trigger] es[j]).0 == excl,
                forall|x: int|
                    0 <= x < r@.len() ==> exists|j: int|
                        0 <= j < i && (#[trigger] r@[x]).0 == (#[trigger] es[j]).0 && r@[x].1@
                            == es[j].1@,
                forall|x: int| 0 <= x < r@.len() ==> (#[trigger] r@[x]).0 != excl,
                forall|x: int, y: int|
                    0 <= x < y < r@.len() ==> (#[trigger] r@[x]).0 != (#[trigger] r@[y]).0,
                forall|j: int|
                    0 <= j < i && (#[trigger] es[j]).0 != excl ==> exists|x: int|
                        0 <= x < r@.len() && (#[trigger] r@[x]).0 == es[j].0,
            decreases n - i,
        {
            let e = self.known_nodes.entry_at(i);
            if e.0 == excl {
                found = true;
                proof {
                    assert(es[i as int].0 == excl);
                }
            } else {
                let ghost old_r = r@;
                r.push((e.0, clone_bytes(&e.1)));
                proof {
                    assert(forall|x: int| 0 <= x < old_r.len() ==> #[trigger] r@[x] == old_r[x]);
                    assert(r@[r@.len() - 1].0 == es[i as int].0);
                    assert forall|x: int, y: int|
                        0 <= x < y < r@.len() implies (#[trigger] r@[x]).0 != (
                    #[trigger] r@[y]).0 by {
                        if y == r@.len() - 1 {
                            let j = choose|j: int|
                                0 <= j < i && (#[trigger] r@[x]).0 == (#[trigger] es[j]).0
                                    && r@[x].1@ == es[j].1@;
                            assert(es[j].0 != es[i as int].0);
                        }
                    }
                    assert forall|j: int|
                        0 <= j < i + 1 && (#[trigger] es[j]).0 != excl implies exists|x: int|
                        0 <= x < r@.len() && (#[trigger] r@[x]).0 == es[j].0 by {
                        if j == i {
                            assert(r@[r@.len() - 1].0 == es[j].0);
                        } else {
                            let x = choose|x: int|
                                0 <= x < old_r.len() && (#[trigger] old_r[x]).0 == es[j].0;
                            assert(r@[x].0 == es[j].0);
                        }
                    }
                }
            }
            i = i + 1;
        }
        proof {
            if self.known_nodes@.contains_key(excl) {
                assert(exists|j: int|
                    0 <= j < es.len() && (#[trigger] es[j]).0 == excl);
                assert(found);
            } else {
                if found {
                    let j = choose|j: int| 0 <= j < es.len() && (#[trigger] es[j]).0 == excl;
                    assert(self.known_nodes@.contains_key(es[j].0));
                    assert(false);
                }
            }
            assert forall|x: int| 0 <= x < r@.len() implies self.known_nodes@.contains_key(
                (#[trigger] r@[x]).0,
            ) && r@[x].1@ == self.known_nodes@[r@[x].0] by {
                let j = choose|j: int|
                    0 <= j < es.len() && (#[trigger] r@[x]).0 == (#[trigger] es[j]).0 && r@[x].1@
                        == es[j].1@;
            }
            assert forall|k: Key|
                self.known_nodes@.contains_key(k) && k != excl implies exists|x: int|
                0 <= x < r@.len() && (#[trigger] r@[x]).0 == k by {
                let j = choose|j: int| 0 <= j < es.len() && (#[trigger] es[j]).0 == k;
            }
        }
        r
    }

    /// The up-to-`K_CLOSEST` known peers nearest to the given identifier.
    pub fn find_k_closest_computers(&self, key: &Key) -> (r: Vec<(Key, Vec<u8>)>)
        ensures
            is_k_closest(
                r@,
                self.known_nodes@,
                self.known_nodes.entry_seq().len() as int,
                *key,
            ),
    {
        let snap = self.snapshot_entries();
        self.known_nodes.entries_facts();
        let r = k_closest_of_entries(&snap, *key);
        proof {
            assert forall|i: int| 0 <= i < r@.len() implies self.known_nodes@.contains_key(
                (#[trigger] r@[i]).0,
            ) && r@[i].1@ == self.known_nodes@[r@[i].0] by {
                let j = choose|j: int|
                    0 <= j < snap@.len() && (#[trigger] r@[i]).0 == (#[trigger] snap@[j]).0
                        && r@[i].1@ == snap@[j].1@;
            }
            assert forall|k: Key, i: int|
                #![trigger self.known_nodes@.contains_key(k), r@[i]]
                self.known_nodes@.contains_key(k) && 0 <= i < r@.len() && !has_peer_key(
                    r@,
                    k,
                ) implies (r@[i].0.key ^ key.key) <= (k.key ^ key.key) by {
                let w = choose|w: int|
                    0 <= w < self.known_nodes.entry_seq().len()
                        && (#[trigger] self.known_nodes.entry_seq()[w]).0 == k;
                assert(snap@[w].0 == k);
                assert(snap@[w] == snap@[w]);
            }
        }
        r
    }

    /// The up-to-`K_CLOSEST` known peers nearest to the given identifier,
    /// leaving this node itself out.
    fn find_k_closest_excluding_self(&self, key: &Key) -> (r: Vec<(Key, Vec<u8>)>)
        ensures
            is_k_closest_excl(
                r@,
                self.known_nodes@,
                self.known_nodes.entry_seq().len() - (if self.known_nodes@.contains_key(self.key) {
                    1int
                } else {
                    0
                }),
                *key,
                self.key,
            ),
    {
        let snap = self.snapshot_entries_excluding(self.key);
        let r = k_closest_of_entries(&snap, *key);
        proof {
            assert forall|i: int| 0 <= i < r@.len() implies self.known_nodes@.contains_key(
                (#[trigger] r@[i]).0,
            ) && r@[i].1@ == self.known_nodes@[r@[i].0] && r@[i].0 != self.key by {
                let j = choose|j: int|
                    0 <= j < snap@.len() && (#[trigger] r@[i]).0 == (#[trigger] snap@[j]).0
                        && r@[i].1@ == snap@[j].1@;
            }
            assert forall|k: Key, i: int|
                #![trigger self.known_nodes@.contains_key(k), r@[i]]
                self.known_nodes@.contains_key(k) && k != self.key && 0 <= i < r@.len()
                    && !has_peer_key(r@, k) implies (r@[i].0.key ^ key.key) <= (k.key
                ^ key.key) by {
                let w = choose|w: int| 0 <= w < snap@.len() && (#[trigger] snap@[w]).0 == k;
                assert(snap@[w] == snap@[w]);
            }
        }
        r
    }
}


/// The routing table after merging a bootstrap reply's peer list: the
/// node's own identifier is skipped, and an already-known peer keeps its
/// recorded address.
pub open spec fn merge_peers_map(
    m: Map<Key, Seq<u8>>,
    l: Seq<(Key, Seq<u8>)>,
    self_key: Key,
) -> Map<Key, Seq<u8>>
    decreases l.len(),
{
    if l.len() == 0 {
        m
    } else {
        let m1 = if l[0].0 == self_key || m.contains_key(l[0].0) {
            m
        } else {
            m.insert(l[0].0, l[0].1)
        };
        merge_peers_map(m1, l.drop_first(), self_key)
    }
}

/// The provider index after merging a fetched provider list: map
/// semantics, a later entry for the same name winning.
pub open spec fn merge_providers_map(m: Map<Seq<u8>, Key>, l: Seq<(Seq<u8>, Key)>) -> Map<
    Seq<u8>,
    Key,
>
    decreases l.len(),
{
    if l.len() == 0 {
        m
    } else {
        merge_providers_map(m.insert(l[0].0, l[0].1), l.drop_first())
    }
}

/// The identifier that a provider list gives a name, if any: the last
/// entry for that name wins.
pub open spec fn provider_list_lookup(l: Seq<(Seq<u8>, Key)>, x: Seq<u8>) -> Option<Key>
    decreases l.len(),
{
    if l.len() == 0 {
        None
    } else {
        match provider_list_lookup(l.drop_first(), x) {
            Some(k) => Some(k),
            None => if l[0].0 == x {
                Some(l[0].1)
            } else {
                None
            },
        }
    }
}

/// What merging a provider list gives each name.
pub proof fn lemma_merge_providers_lookup(m: Map<Seq<u8>, Key>, l: Seq<(Seq<u8>, Key)>, x: Seq<u8>)
    ensures
        merge_providers_map(m, l).contains_key(x) <==> (m.contains_key(x) || provider_list_lookup(
            l,
            x,
        ) is Some),
        merge_providers_map(m, l).contains_key(x) ==> merge_providers_map(m, l)[x] == (
        match provider_list_lookup(l, x) {
            Some(k) => k,
            None => m[x],
        }),
    decreases l.len(),
{
    if l.len() > 0 {
        lemma_merge_providers_lookup(m.insert(l[0].0, l[0].1), l.drop_first(), x);
    }
}

/// Fetching providers is idempotent: merging the same provider list twice
/// leaves the provider index exactly as merging it once does, so no call
/// duplicates or disturbs an entry.
pub proof fn lemma_fetch_providers_idempotent(m: Map<Seq<u8>, Key>, l: Seq<(Seq<u8>, Key)>)
    ensures
        merge_providers_map(merge_providers_map(m, l), l) == merge_providers_map(m, l),
{
    let m1 = merge_providers_map(m, l);
    let m2 = merge_providers_map(m1, l);
    assert forall|x: Seq<u8>|
        #![trigger m2.contains_key(x)]
        #![trigger m1.contains_key(x)]
        m1.contains_key(x) == m2.contains_key(x) && (m1.contains_key(x) ==> m1[x] == m2[x]) by {
        lemma_merge_providers_lookup(m, l, x);
        lemma_merge_providers_lookup(m1, l, x);
    }
    assert(m2 =~= m1);
}

impl Client {
    /// Merges a returned peer list into the routing table, skipping this
    /// node's own identifier and keeping addresses already recorded.
    pub fn merge_peers(&mut self, records: &Vec<(Key, Vec<u8>)>)
        ensures
            final(self).known_nodes@ == merge_peers_map(
                old(self).known_nodes@,
                Seq::new(records@.len(), |i: int| peer_view(records@[i])),
                old(self).key,
            ),
            final(self).host == old(self).host,
            final(self).key == old(self).key,
            final(self).local_hash@ == old(self).local_hash@,
            final(self).providers@ == old(self).providers@,
    {
        let ghost lv = Seq::new(records@.len(), |i: int| peer_view(records@[i]));
        let ghost m0 = self.known_nodes@;
        let ghost goal = merge_peers_map(m0, lv, self.key);
        let mut i: usize = 0;
        proof {
            assert(lv.skip(0) =~= lv);
        }
        while i < records.len()
            invariant
                i <= records@.len(),
                lv == Seq::new(records@.len(), |x: int| peer_view(records@[x])),
                goal == merge_peers_map(m0, lv, old(self).key),
                merge_peers_map(self.known_nodes@, lv.skip(i as int), old(self).key) == goal,
                self.host == old(self).host,
                self.key == old(self).key,
                self.local_hash@ == old(self).local_hash@,
                self.providers@ == old(self).providers@,
            decreases records@.len() - i,
        {
            let ghost pre = self.known_nodes@;
            let rec = &records[i];
            if !(rec.0 == self.key) && !self.known_nodes.contains(rec.0) {
                self.known_nodes.insert(rec.0, clone_bytes(&rec.1));
            }
            i = i + 1;
            proof {
                assert(lv.skip(i as int - 1)[0] == lv[i as int - 1]);
                assert(lv.skip(i as int - 1).drop_first() =~= lv.skip(i as int));
                assert(lv[i as int - 1] == peer_view(records@[i as int - 1]));
            }
        }
        proof {
            assert(lv.skip(records@.len() as int) =~= Seq::<(Key, Seq<u8>)>::empty());
        }
    }

    /// Merges a fetched provider list into the provider index, map
    /// semantics with the later entry winning.
    pub fn merge_providers(&mut self, provs: &Vec<(Vec<u8>, Key)>)
        ensures
            final(self).providers@ == merge_providers_map(
                old(self).providers@,
                Seq::new(provs@.len(), |i: int| ((provs@[i].0@, provs@[i].1))),
            ),
            final(self).host == old(self).host,
            final(self).key == old(self).key,
            final(self).local_hash@ == old(self).local_hash@,
            final(self).known_nodes@ == old(self).known_nodes@,
    {
        let ghost lv = Seq::new(provs@.len(), |i: int| ((provs@[i].0@, provs@[i].1)));
        let ghost m0 = self.providers@;
        let ghost goal = merge_providers_map(m0, lv);
        let mut i: usize = 0;
        proof {
            assert(lv.skip(0) =~= lv);
        }
        while i < provs.len()
            invariant
                i <= provs@.len(),
                lv == Seq::new(provs@.len(), |x: int| ((provs@[x].0@, provs@[x].1))),
                goal == merge_providers_map(m0, lv),
                merge_providers_map(self.providers@, lv.skip(i as int)) == goal,
                self.host == old(self).host,
                self.key == old(self).key,
                self.local_hash@ == old(self).local_hash@,
                self.known_nodes@ == old(self).known_nodes@,
            decreases provs@.len() - i,
        {
            let rec = &provs[i];
            self.providers.insert(clone_bytes(&rec.0), rec.1);
            i = i + 1;
            proof {
                assert(lv.skip(i as int - 1)[0] == lv[i as int - 1]);
                assert(lv.skip(i as int - 1).drop_first() =~= lv.skip(i as int));
                assert(lv[i as int - 1] == (provs@[i as int - 1].0@, provs@[i as int - 1].1));
            }
        }
        proof {
            assert(lv.skip(provs@.len() as int) =~= Seq::<(Seq<u8>, Key)>::empty());
        }
    }

    /// Serves one request from a connection: the sender is always recorded
    /// in the routing table first; a peers lookup answers with the k-closest
    /// peers and, when the asked-for content is held locally, registers it
    /// in the provider index and substitutes it into the reply; an insert
    /// stores content and provider without a reply; a providers request
    /// answers with a snapshot of the provider index.
    pub fn handle_message(&mut self, msg: &DHTMessage) -> (r: Option<DHTMessage>)
        ensures
            final(self).host == old(self).host,
            final(self).key == old(self).key,
            final(self).known_nodes@ == old(self).known_nodes@.insert(
                msg.sending_node.0,
                msg.sending_node.1@,
            ),
            match msg.type_of {
                DhtKind::Insert => {
                    &&& r is None
                    &&& final(self).local_hash@ == old(self).local_hash@.insert(
                        msg.data.0,
                        msg.data.1@,
                    )
                    &&& final(self).providers@ == old(self).providers@.insert(
                        msg.name@,
                        msg.data.0,
                    )
                },
                DhtKind::KPeers => {
                    &&& final(self).local_hash@ == old(self).local_hash@
                    &&& (if msg.data.0.key != 0 && old(self).local_hash@.contains_key(msg.data.0) {
                        final(self).providers@ == old(self).providers@.insert(
                            old(self).local_hash@[msg.data.0].filename,
                            msg.data.0,
                        )
                    } else {
                        final(self).providers@ == old(self).providers@
                    })
                    &&& (r matches Some(reply) && {
                        &&& reply.type_of == DhtKind::KPeers
                        &&& reply.sending_node.0 == msg.sending_node.0
                        &&& reply.sending_node.1@ == msg.sending_node.1@
                        &&& reply.key.0 == msg.key.0
                        &&& reply.key.1@ == msg.key.1@
                        &&& reply.name@ == msg.name@
                        &&& reply.providers@.len() == 0
                        &&& is_k_closest(
                            reply.keys@,
                            final(self).known_nodes@,
                            final(self).known_nodes.entry_seq().len() as int,
                            msg.key.0,
                        )
                        &&& reply.data.0 == msg.data.0
                        &&& (if msg.data.0.key != 0 && old(self).local_hash@.contains_key(
                            msg.data.0,
                        ) {
                            reply.data.1@ == old(self).local_hash@[msg.data.0]
                        } else {
                            reply.data.1@ == msg.data.1@
                        })
                    })
                },
                DhtKind::Providers => {
                    &&& final(self).local_hash@ == old(self).local_hash@
                    &&& final(self).providers@ == old(self).providers@
                    &&& (r matches Some(reply) && {
                        &&& reply.type_of == DhtKind::Providers
                        &&& reply.sending_node.0 == msg.sending_node.0
                        &&& reply.sending_node.1@ == msg.sending_node.1@
                        &&& reply.key.0 == msg.key.0
                        &&& reply.key.1@ == msg.key.1@
                        &&& reply.name@ == msg.name@
                        &&& reply.keys@.len() == 0
                        &&& reply.data.0 == msg.data.0
                        &&& reply.data.1@ == msg.data.1@
                        &&& reply.providers@.len() == final(self).providers.entry_seq().len()
                        &&& (forall|i: int|
                            0 <= i < reply.providers@.len() ==> (#[trigger] reply.providers@[i]).0@
                                == final(self).providers.entry_seq()[i].0@
                                && reply.providers@[i].1
                                == final(self).providers.entry_seq()[i].1)
                    })
                },
            },
    {
        self.known_nodes.insert(msg.sending_node.0, clone_bytes(&msg.sending_node.1));
        match msg.type_of {
            DhtKind::Insert => {
                self.local_hash.insert(msg.data.0, msg.data.1.clone());
                self.providers.insert(clone_bytes(&msg.name), msg.data.0);
                None
            },
            DhtKind::KPeers => {
                let keys_reply = self.find_k_closest_computers(&msg.key.0);
                let mut reply_data = msg.data.1.clone();
                if msg.data.0.key != 0 {
                    let stored: Option<Data> = match self.local_hash.get(msg.data.0) {
                        Some(d) => Some(d.clone()),
                        None => None,
                    };
                    match stored {
                        Some(d) => {
                            self.providers.insert(clone_bytes(&d.file_meta.filename), msg.data.0);
                            reply_data = d;
                        },
                        None => {},
                    }
                }
                Some(
                    DHTMessage {
                        type_of: DhtKind::KPeers,
                        sending_node: (msg.sending_node.0, clone_bytes(&msg.sending_node.1)),
                        key: (msg.key.0, clone_bytes(&msg.key.1)),
                        keys: keys_reply,
                        data: (msg.data.0, reply_data),
                        providers: Vec::new(),
                        name: clone_bytes(&msg.name),
                    },
                )
            },
            DhtKind::Providers => {
                self.providers.entries_facts();
                let n = self.providers.num_entries();
                let mut provider_vector: Vec<(Vec<u8>, Key)> = Vec::new();
                let mut i: usize = 0;
                while i < n
                    invariant
                        n == self.providers.entry_seq().len(),
                        i <= n,
                        provider_vector@.len() == i,
                        forall|j: int|
                            0 <= j < i ==> (#[trigger] provider_vector@[j]).0@
                                == self.providers.entry_seq()[j].0@ && provider_vector@[j].1
                                == self.providers.entry_seq()[j].1,
                    decreases n - i,
                {
                    let e = self.providers.entry_at(i);
                    provider_vector.push((clone_bytes(&e.0), e.1));
                    i = i + 1;
                }
                Some(
                    DHTMessage {
                        type_of: DhtKind::Providers,
                        sending_node: (msg.sending_node.0, clone_bytes(&msg.sending_node.1)),
                        key: (msg.key.0, clone_bytes(&msg.key.1)),
                        keys: Vec::new(),
                        data: (msg.data.0, msg.data.1.clone()),
                        providers: provider_vector,
                        name: clone_bytes(&msg.name),
                    },
                )
            },
        }
    }
}


/// One outbound content lookup in flight: which peers are still to be
/// asked, who answered empty, and what was found.
pub struct GetSession {
    pub target: Key,
    pub targets: Vec<(Key, Vec<u8>)>,
    pub next: usize,
    pub empties: Vec<(Key, Vec<u8>)>,
    pub found: Option<(Key, Data)>,
}

impl Client {
    /// Opens a lookup for a content key. Content already held locally is
    /// found at once; otherwise the k-closest peers, this node excluded,
    /// are lined up to be asked in order of distance.
    pub fn get_data_begin(&self, find_key: Key) -> (st: GetSession)
        ensures
            st.target == find_key,
            st.next == 0,
            st.empties@.len() == 0,
            self.local_hash@.contains_key(find_key) ==> (st.found matches Some(f) && f.0
                == find_key && f.1@ == self.local_hash@[find_key] && st.targets@.len() == 0),
            !self.local_hash@.contains_key(find_key) ==> (st.found is None && is_k_closest_excl(
                st.targets@,
                self.known_nodes@,
                self.known_nodes.entry_seq().len() - (if self.known_nodes@.contains_key(self.key) {
                    1int
                } else {
                    0
                }),
                find_key,
                self.key,
            )),
    {
        match self.local_hash.get(find_key) {
            Some(d) => GetSession {
                target: find_key,
                targets: Vec::new(),
                next: 0,
                empties: Vec::new(),
                found: Some((find_key, d.clone())),
            },
            None => GetSession {
                target: find_key,
                targets: self.find_k_closest_excluding_self(&find_key),
                next: 0,
                empties: Vec::new(),
                found: None,
            },
        }
    }

    /// The next lookup request to send, or None when the lookup is done:
    /// something was found, or every peer was asked.
    pub fn get_data_request(&self, st: &GetSession) -> (r: Option<Message>)
        ensures
            match r {
                Some(m) => st.found is None && st.next < st.targets@.len() && m@ == request_model(
                    MsgType::PeersIGet,
                    self.key,
                    self.host@,
                    peer_view(st.targets@[st.next as int]),
                    (st.target, Seq::empty()),
                    st.target,
                    empty_data_model(),
                ),
                None => st.found is Some || st.next >= st.targets@.len(),
            },
    {
        if st.found.is_some() || st.next >= st.targets.len() {
            return None;
        }
        let t = &st.targets[st.next];
        let m = Message::new(
            MsgType::PeersIGet,
            (self.key, clone_bytes(&self.host)),
            (t.0, clone_bytes(&t.1)),
            (st.target, Vec::new()),
            st.target,
            Data::create_empty(),
        );
        proof {
            assert(m@.key.1 =~= Seq::<u8>::empty());
            assert(m@.keys =~= Seq::<(Key, Seq<u8>)>::empty());
            assert(m@.providers =~= Seq::<(Seq<u8>, Key)>::empty());
            assert(m@ == request_model(
                MsgType::PeersIGet,
                self.key,
                self.host@,
                peer_view(st.targets@[st.next as int]),
                (st.target, Seq::empty()),
                st.target,
                empty_data_model(),
            ));
        }
        Some(m)
    }

    /// Feeds one peer's reply into the lookup: an empty payload marks the
    /// peer for later replication, a non-empty one ends the search.
    pub fn get_data_on_response(&self, st: &mut GetSession, reply: &Message)
        requires
            old(st).found is None,
            old(st).next < old(st).targets@.len(),
        ensures
            final(st).target == old(st).target,
            final(st).targets == old(st).targets,
            final(st).next == old(st).next + 1,
            reply.data.0.key == 0 ==> (final(st).found is None && final(st).empties@.len()
                == old(st).empties@.len() + 1 && (forall|j: int|
                0 <= j < old(st).empties@.len() ==> final(st).empties@[j] == old(st).empties@[j])
                && final(st).empties@.last().0 == old(st).targets@[old(st).next as int].0
                && final(st).empties@.last().1@ == old(st).targets@[old(st).next as int].1@),
            reply.data.0.key != 0 ==> (final(st).empties@ == old(st).empties@ && (final(st).found
                matches Some(f) && f.0 == reply.data.0 && f.1@ == reply.data.1@)),
    {
        let n = st.targets.len();
        assert(st.next < n);
        if crate::wire::empty_data(&reply.data) {
            let t = &st.targets[st.next];
            st.empties.push((t.0, clone_bytes(&t.1)));
        } else {
            st.found = Some((reply.data.0, reply.data.1.clone()));
        }
        st.next = st.next + 1;
    }

    /// Closes the lookup: a found value is cached locally and handed back,
    /// with one replication insert for every peer that had answered empty.
    pub fn get_data_finish(&mut self, st: &GetSession) -> (r: (Option<Data>, Vec<Message>))
        ensures
            final(self).host == old(self).host,
            final(self).key == old(self).key,
            final(self).known_nodes@ == old(self).known_nodes@,
            final(self).providers@ == old(self).providers@,
            match st.found {
                Some(f) => {
                    &&& final(self).local_hash@ == old(self).local_hash@.insert(f.0, f.1@)
                    &&& (r.0 matches Some(d) && d@ == f.1@)
                    &&& r.1@.len() == st.empties@.len()
                    &&& (forall|i: int|
                        0 <= i < r.1@.len() ==> (#[trigger] r.1@[i])@ == request_model(
                            MsgType::Insert,
                            old(self).key,
                            old(self).host@,
                            peer_view(st.empties@[i]),
                            (Key { key: 0 }, f.1@.filename),
                            f.0,
                            f.1@,
                        ))
                },
                None => {
                    &&& final(self).local_hash@ == old(self).local_hash@
                    &&& r.0 is None
                    &&& r.1@.len() == 0
                },
            },
    {
        match &st.found {
            Some(f) => {
                let found_key = f.0;
                let found_data = f.1.clone();
                self.local_hash.insert(found_key, found_data.clone());
                let mut msgs: Vec<Message> = Vec::new();
                let mut i: usize = 0;
                while i < st.empties.len()
                    invariant
                        i <= st.empties@.len(),
                        msgs@.len() == i,
                        st.found matches Some(ff) && ff.0 == found_key && ff.1@ == found_data@,
                        self.key == old(self).key,
                        self.host == old(self).host,
                        forall|j: int|
                            0 <= j < i ==> (#[trigger] msgs@[j])@ == request_model(
                                MsgType::Insert,
                                old(self).key,
                                old(self).host@,
                                peer_view(st.empties@[j]),
                                (Key { key: 0 }, found_data@.filename),
                                found_key,
                                found_data@,
                            ),
                    decreases st.empties@.len() - i,
                {
                    let t = &st.empties[i];
                    let m = Message::new(
                        MsgType::Insert,
                        (self.key, clone_bytes(&self.host)),
                        (t.0, clone_bytes(&t.1)),
                        (Key { key: 0 }, clone_bytes(&found_data.file_meta.filename)),
                        found_key,
                        found_data.clone(),
                    );
                    proof {
                        assert(m@.keys =~= Seq::<(Key, Seq<u8>)>::empty());
                        assert(m@.providers =~= Seq::<(Seq<u8>, Key)>::empty());
                        assert(m@ == request_model(
                            MsgType::Insert,
                            old(self).key,
                            old(self).host@,
                            peer_view(st.empties@[i as int]),
                            (Key { key: 0 }, found_data@.filename),
                            found_key,
                            found_data@,
                        ));
                    }
                    msgs.push(m);
                    i = i + 1;
                }
                (Some(found_data), msgs)
            },
            None => (None, Vec::new()),
        }
    }

    /// Stores content locally under the fingerprint of its name, registers
    /// this node as its provider, and hands back one insert message for
    /// each of the k-closest peers, this node excluded.
    pub fn put_data(&mut self, name: Vec<u8>, data: Data) -> (r: Vec<Message>)
        ensures
            final(self).host == old(self).host,
            final(self).key == old(self).key,
            final(self).known_nodes@ == old(self).known_nodes@,
            final(self).local_hash@ == old(self).local_hash@.insert(
                Key { key: fingerprint_of(name@) },
                data@,
            ),
            final(self).providers@ == old(self).providers@.insert(
                name@,
                Key { key: fingerprint_of(name@) },
            ),
            is_k_closest_excl(
                Seq::new(r@.len(), |i: int| (#[trigger] r@[i]).to),
                old(self).known_nodes@,
                old(self).known_nodes.entry_seq().len() - (
                if old(self).known_nodes@.contains_key(old(self).key) {
                    1int
                } else {
                    0
                }),
                Key { key: fingerprint_of(name@) },
                old(self).key,
            ),
            forall|i: int|
                0 <= i < r@.len() ==> (#[trigger] r@[i])@ == request_model(
                    MsgType::Insert,
                    old(self).key,
                    old(self).host@,
                    peer_view(r@[i].to),
                    (Key { key: 0 }, name@),
                    Key { key: fingerprint_of(name@) },
                    data@,
                ),
    {
        let calc_key = Key::generate_hash_from_data(name.as_slice());
        self.local_hash.insert(calc_key, data.clone());
        self.providers.insert(clone_bytes(&name), calc_key);
        let comps = self.find_k_closest_excluding_self(&calc_key);
        let ghost comps_v = comps@;
        let mut msgs: Vec<Message> = Vec::new();
        let mut i: usize = 0;
        while i < comps.len()
            invariant
                i <= comps@.len(),
                comps@ == comps_v,
                msgs@.len() == i,
                self.key == old(self).key,
                self.host == old(self).host,
                forall|j: int| 0 <= j < i ==> (#[trigger] msgs@[j]).to.0 == comps@[j].0
                    && msgs@[j].to.1@ == comps@[j].1@,
                forall|j: int|
                    0 <= j < i ==> (#[trigger] msgs@[j])@ == request_model(
                        MsgType::Insert,
                        old(self).key,
                        old(self).host@,
                        peer_view(comps@[j]),
                        (Key { key: 0 }, name@),
                        calc_key,
                        data@,
                    ),
            decreases comps@.len() - i,
        {
            let t = &comps[i];
            let m = Message::new(
                MsgType::Insert,
                (self.key, clone_bytes(&self.host)),
                (t.0, clone_bytes(&t.1)),
                (Key { key: 0 }, clone_bytes(&name)),
                calc_key,
                data.clone(),
            );
            proof {
                assert(m@.keys =~= Seq::<(Key, Seq<u8>)>::empty());
                assert(m@.providers =~= Seq::<(Seq<u8>, Key)>::empty());
                assert(m@ == request_model(
                    MsgType::Insert,
                    old(self).key,
                    old(self).host@,
                    peer_view(comps@[i as int]),
                    (Key { key: 0 }, name@),
                    calc_key,
                    data@,
                ));
            }
            msgs.push(m);
            i = i + 1;
        }
        proof {
            let tv = Seq::new(msgs@.len(), |i: int| (#[trigger] msgs@[i]).to);
            assert forall|i: int| 0 <= i < tv.len() implies (#[trigger] tv[i]).0 == comps_v[i].0
                && tv[i].1@ == comps_v[i].1@ by {}
            lemma_k_closest_excl_transfer(
                comps_v,
                tv,
                old(self).known_nodes@,
                old(self).known_nodes.entry_seq().len() - (
                if old(self).known_nodes@.contains_key(old(self).key) {
                    1int
                } else {
                    0
                }),
                calc_key,
                old(self).key,
            );
        }
        msgs
    }

    /// One bootstrap request per currently known k-closest peer.
    pub fn bootstrap_requests(&self) -> (r: Vec<Message>)
        ensures
            is_k_closest(
                Seq::new(r@.len(), |i: int| (#[trigger] r@[i]).to),
                self.known_nodes@,
                self.known_nodes.entry_seq().len() as int,
                self.key,
            ),
            forall|i: int|
                0 <= i < r@.len() ==> (#[trigger] r@[i])@ == request_model(
                    MsgType::PeersI,
                    self.key,
                    self.host@,
                    peer_view(r@[i].to),
                    empty_peer_model(),
                    Key { key: 0 },
                    empty_data_model(),
                ),
    {
        let comps = self.find_k_closest_computers(&self.key);
        let ghost comps_v = comps@;
        let mut msgs: Vec<Message> = Vec::new();
        let mut i: usize = 0;
        while i < comps.len()
            invariant
                i <= comps@.len(),
                comps@ == comps_v,
                msgs@.len() == i,
                forall|j: int| 0 <= j < i ==> (#[trigger] msgs@[j]).to.0 == comps@[j].0
                    && msgs@[j].to.1@ == comps@[j].1@,
                forall|j: int|
                    0 <= j < i ==> (#[trigger] msgs@[j])@ == request_model(
                        MsgType::PeersI,
                        self.key,
                        self.host@,
                        peer_view(comps@[j]),
                        empty_peer_model(),
                        Key { key: 0 },
                        empty_data_model(),
                    ),
            decreases comps@.len() - i,
        {
            let t = &comps[i];
            let m = Message::new(
                MsgType::PeersI,
                (self.key, clone_bytes(&self.host)),
                (t.0, clone_bytes(&t.1)),
                crate::wire::create_empty_peer_record(),
                Key { key: 0 },
                Data::create_empty(),
            );
            proof {
                assert(m@.key.1 =~= Seq::<u8>::empty());
                assert(m@.keys =~= Seq::<(Key, Seq<u8>)>::empty());
                assert(m@.providers =~= Seq::<(Seq<u8>, Key)>::empty());
                assert(m@ == request_model(
                    MsgType::PeersI,
                    self.key,
                    self.host@,
                    peer_view(comps@[i as int]),
                    empty_peer_model(),
                    Key { key: 0 },
                    empty_data_model(),
                ));
            }
            msgs.push(m);
            i = i + 1;
        }
        proof {
            let tv = Seq::new(msgs@.len(), |i: int| (#[trigger] msgs@[i]).to);
            assert forall|i: int| 0 <= i < tv.len() implies (#[trigger] tv[i]).0 == comps_v[i].0
                && tv[i].1@ == comps_v[i].1@ by {}
            lemma_k_closest_transfer(
                comps_v,
                tv,
                self.known_nodes@,
                self.known_nodes.entry_seq().len() as int,
                self.key,
            );
        }
        msgs
    }

    /// One provider-fetch request per known k-closest peer, this node
    /// excluded.
    pub fn fetch_provider_requests(&self) -> (r: Vec<Message>)
        ensures
            is_k_closest_excl(
                Seq::new(r@.len(), |i: int| (#[trigger] r@[i]).to),
                self.known_nodes@,
                self.known_nodes.entry_seq().len() - (if self.known_nodes@.contains_key(self.key) {
                    1int
                } else {
                    0
                }),
                self.key,
                self.key,
            ),
            forall|i: int|
                0 <= i < r@.len() ==> (#[trigger] r@[i])@ == request_model(
                    MsgType::ProviderGet,
                    self.key,
                    self.host@,
                    peer_view(r@[i].to),
                    empty_peer_model(),
                    Key { key: 0 },
                    empty_data_model(),
                ),
    {
        let comps = self.find_k_closest_excluding_self(&self.key);
        let ghost comps_v = comps@;
        let mut msgs: Vec<Message> = Vec::new();
        let mut i: usize = 0;
        while i < comps.len()
            invariant
                i <= comps@.len(),
                comps@ == comps_v,
                msgs@.len() == i,
                forall|j: int| 0 <= j < i ==> (#[trigger] msgs@[j]).to.0 == comps@[j].0
                    && msgs@[j].to.1@ == comps@[j].1@,
                forall|j: int|
                    0 <= j < i ==> (#[trigger] msgs@[j])@ == request_model(
                        MsgType::ProviderGet,
                        self.key,
                        self.host@,
                        peer_view(comps@[j]),
                        empty_peer_model(),
                        Key { key: 0 },
                        empty_data_model(),
                    ),
            decreases comps@.len() - i,
        {
            let t = &comps[i];
            let m = Message::new(
                MsgType::ProviderGet,
                (self.key, clone_bytes(&self.host)),
                (t.0, clone_bytes(&t.1)),
                crate::wire::create_empty_peer_record(),
                Key { key: 0 },
                Data::create_empty(),
            );
            proof {
                assert(m@.key.1 =~= Seq::<u8>::empty());
                assert(m@.keys =~= Seq::<(Key, Seq<u8>)>::empty());
                assert(m@.providers =~= Seq::<(Seq<u8>, Key)>::empty());
                assert(m@ == request_model(
                    MsgType::ProviderGet,
                    self.key,
                    self.host@,
                    peer_view(comps@[i as int]),
                    empty_peer_model(),
                    Key { key: 0 },
                    empty_data_model(),
                ));
            }
            msgs.push(m);
            i = i + 1;
        }
        proof {
            let tv = Seq::new(msgs@.len(), |i: int| (#[trigger] msgs@[i]).to);
            assert forall|i: int| 0 <= i < tv.len() implies (#[trigger] tv[i]).0 == comps_v[i].0
                && tv[i].1@ == comps_v[i].1@ by {}
            lemma_k_closest_excl_transfer(
                comps_v,
                tv,
                self.known_nodes@,
                self.known_nodes.entry_seq().len() - (if self.known_nodes@.contains_key(self.key) {
                    1int
                } else {
                    0
                }),
                self.key,
                self.key,
            );
        }
        msgs
    }

    /// The ping request for a known peer, with its recorded address; None
    /// exactly when the peer is unknown.
    pub fn ping_request(&self, key: Key) -> (r: Option<(Vec<u8>, Message)>)
        ensures
            match r {
                Some((addr, m)) => self.known_nodes@.contains_key(key) && addr@
                    == self.known_nodes@[key] && m@ == request_model(
                    MsgType::Ping,
                    self.key,
                    self.host@,
                    (key, self.known_nodes@[key]),
                    empty_peer_model(),
                    Key { key: 0 },
                    empty_data_model(),
                ),
                None => !self.known_nodes@.contains_key(key),
            },
    {
        match self.known_nodes.get(key) {
            Some(a) => {
                let addr = clone_bytes(a);
                let m = Message::new(
                    MsgType::Ping,
                    (self.key, clone_bytes(&self.host)),
                    (key, clone_bytes(&addr)),
                    crate::wire::create_empty_peer_record(),
                    Key { key: 0 },
                    Data::create_empty(),
                );
                proof {
                    assert(m@.key.1 =~= Seq::<u8>::empty());
                    assert(m@.keys =~= Seq::<(Key, Seq<u8>)>::empty());
                    assert(m@.providers =~= Seq::<(Seq<u8>, Key)>::empty());
                    assert(m@ == request_model(
                        MsgType::Ping,
                        self.key,
                        self.host@,
                        (key, self.known_nodes@[key]),
                        empty_peer_model(),
                        Key { key: 0 },
                        empty_data_model(),
                    ));
                }
                Some((addr, m))
            },
            None => None,
        }
    }

    /// A snapshot of the three tables, entry for entry.
    pub fn dump_state(&self) -> (r: (Vec<(Key, Vec<u8>)>, Vec<(Key, Data)>, Vec<(Vec<u8>, Key)>))
        ensures
            r.0@.len() == self.known_nodes.entry_seq().len(),
            forall|i: int|
                0 <= i < r.0@.len() ==> (#[trigger] r.0@[i]).0
                    == self.known_nodes.entry_seq()[i].0 && r.0@[i].1@
                    == self.known_nodes.entry_seq()[i].1@,
            r.1@.len() == self.local_hash.entry_seq().len(),
            forall|i: int|
                0 <= i < r.1@.len() ==> (#[trigger] r.1@[i]).0 == self.local_hash.entry_seq()[i].0
                    && r.1@[i].1@ == self.local_hash.entry_seq()[i].1@,
            r.2@.len() == self.providers.entry_seq().len(),
            forall|i: int|
                0 <= i < r.2@.len() ==> (#[trigger] r.2@[i]).0@
                    == self.providers.entry_seq()[i].0@ && r.2@[i].1
                    == self.providers.entry_seq()[i].1,
    {
        let peers = self.snapshot_entries();
        let n1 = self.local_hash.num_entries();
        let mut records: Vec<(Key, Data)> = Vec::new();
        let mut i: usize = 0;
        while i < n1
            invariant
                n1 == self.local_hash.entry_seq().len(),
                i <= n1,
                records@.len() == i,
                forall|j: int|
                    0 <= j < i ==> (#[trigger] records@[j]).0 == self.local_hash.entry_seq()[j].0
                        && records@[j].1@ == self.local_hash.entry_seq()[j].1@,
            decreases n1 - i,
        {
            let e = self.local_hash.entry_at(i);
            records.push((e.0, e.1.clone()));
            i = i + 1;
        }
        let n2 = self.providers.num_entries();
        let mut provs: Vec<(Vec<u8>, Key)> = Vec::new();
        let mut j: usize = 0;
        while j < n2
            invariant
                n2 == self.providers.entry_seq().len(),
                j <= n2,
                provs@.len() == j,
                forall|x: int|
                    0 <= x < j ==> (#[trigger] provs@[x]).0@ == self.providers.entry_seq()[x].0@
                        && provs@[x].1 == self.providers.entry_seq()[x].1,
            decreases n2 - j,
        {
            let e = self.providers.entry_at(j);
            provs.push((clone_bytes(&e.0), e.1));
            j = j + 1;
        }
        (peers, records, provs)
    }
}

/// The request that a connection's read loop forwards to the dispatch loop
/// for an inbound frame, or None for the frames it answers or drops itself.
pub fn derive_request(msg: &Message) -> (r: Option<DHTMessage>)
    ensures
        match msg.type_of {
            MsgType::PeersI => r matches Some(d) && d.type_of == DhtKind::KPeers
                && d.sending_node.0 == msg.from.0 && d.sending_node.1@ == msg.from.1@ && d.key.0
                == (Key { key: 0 }) && d.key.1@ == Seq::<u8>::empty() && d.keys@.len() == 0
                && d.data.0 == msg.data.0 && d.data.1@ == msg.data.1@ && d.providers@.len() == 0
                && d.name@ == Seq::<u8>::empty(),
            MsgType::PeersIGet => r matches Some(d) && d.type_of == DhtKind::KPeers
                && d.sending_node.0 == msg.from.0 && d.sending_node.1@ == msg.from.1@ && d.key.0
                == msg.key.0 && d.key.1@ == msg.key.1@ && d.keys@.len() == 0 && d.data.0
                == msg.data.0 && d.data.1@ == msg.data.1@ && d.providers@.len() == 0 && d.name@
                == Seq::<u8>::empty(),
            MsgType::ProviderGet => r matches Some(d) && d.type_of == DhtKind::Providers
                && d.sending_node.0 == msg.from.0 && d.sending_node.1@ == msg.from.1@ && d.key.0
                == (Key { key: 0 }) && d.key.1@ == Seq::<u8>::empty() && d.keys@.len() == 0
                && d.data.0 == msg.data.0 && d.data.1@ == msg.data.1@ && d.providers@.len() == 0
                && d.name@ == Seq::<u8>::empty(),
            MsgType::Insert => r matches Some(d) && d.type_of == DhtKind::Insert
                && d.sending_node.0 == msg.from.0 && d.sending_node.1@ == msg.from.1@ && d.key.0
                == msg.key.0 && d.key.1@ == msg.key.1@ && d.keys@.len() == 0 && d.data.0
                == msg.data.0 && d.data.1@ == msg.data.1@ && d.providers@.len() == 0 && d.name@
                == msg.key.1@,
            _ => r is None,
        },
{
    match msg.type_of {
        MsgType::PeersI => Some(
            DHTMessage {
                type_of: DhtKind::KPeers,
                sending_node: (msg.from.0, clone_bytes(&msg.from.1)),
                key: crate::wire::create_empty_peer_record(),
                keys: Vec::new(),
                data: (msg.data.0, msg.data.1.clone()),
                providers: Vec::new(),
                name: Vec::new(),
            },
        ),
        MsgType::PeersIGet => Some(
            DHTMessage {
                type_of: DhtKind::KPeers,
                sending_node: (msg.from.0, clone_bytes(&msg.from.1)),
                key: (msg.key.0, clone_bytes(&msg.key.1)),
                keys: Vec::new(),
                data: (msg.data.0, msg.data.1.clone()),
                providers: Vec::new(),
                name: Vec::new(),
            },
        ),
        MsgType::ProviderGet => Some(
            DHTMessage {
                type_of: DhtKind::Providers,
                sending_node: (msg.from.0, clone_bytes(&msg.from.1)),
                key: crate::wire::create_empty_peer_record(),
                keys: Vec::new(),
                data: (msg.data.0, msg.data.1.clone()),
                providers: Vec::new(),
                name: Vec::new(),
            },
        ),
        MsgType::Insert => Some(
            DHTMessage {
                type_of: DhtKind::Insert,
                sending_node: (msg.from.0, clone_bytes(&msg.from.1)),
                key: (msg.key.0, clone_bytes(&msg.key.1)),
                keys: Vec::new(),
                data: (msg.data.0, msg.data.1.clone()),
                providers: Vec::new(),
                name: clone_bytes(&msg.key.1),
            },
        ),
        _ => None,
    }
}

/// The reply type with which each request type is answered.
pub open spec fn reply_type_of(t: MsgType) -> MsgType {
    match t {
        MsgType::PeersI => MsgType::PeersR,
        MsgType::PeersIGet => MsgType::PeersRGet,
        MsgType::ProviderGet => MsgType::ProvidersGetReply,
        _ => t,
    }
}

/// The frame sent back for a served request: the envelope swapped, the
/// reply type set, and the dispatch loop's answer carried in the lists and
/// the payload.
pub fn reply_envelope(msg: &Message, reply: &DHTMessage) -> (r: Message)
    requires
        msg.type_of == MsgType::PeersI || msg.type_of == MsgType::PeersIGet || msg.type_of
            == MsgType::ProviderGet,
    ensures
        r@.type_of == reply_type_of(msg.type_of),
        r@.from == msg@.to,
        r@.to == msg@.from,
        r@.key == msg@.key,
        r@.keys.len() == reply.keys@.len(),
        forall|i: int|
            0 <= i < reply.keys@.len() ==> r@.keys[i] == peer_view(#[trigger] reply.keys@[i]),
        r@.providers.len() == reply.providers@.len(),
        forall|i: int|
            0 <= i < reply.providers@.len() ==> r@.providers[i] == ((
            #[trigger] reply.providers@[i]).0@, reply.providers@[i].1),
        r@.data == (reply.data.0, reply.data.1@),
{
    let t = match msg.type_of {
        MsgType::PeersI => MsgType::PeersR,
        MsgType::PeersIGet => MsgType::PeersRGet,
        _ => MsgType::ProvidersGetReply,
    };
    let mut keys: Vec<(Key, Vec<u8>)> = Vec::new();
    let mut i: usize = 0;
    while i < reply.keys.len()
        invariant
            i <= reply.keys@.len(),
            keys@.len() == i,
            forall|j: int|
                0 <= j < i ==> (#[trigger] keys@[j]).0 == reply.keys@[j].0 && keys@[j].1@
                    == reply.keys@[j].1@,
        decreases reply.keys@.len() - i,
    {
        let e = &reply.keys[i];
        keys.push((e.0, clone_bytes(&e.1)));
        i = i + 1;
    }
    let mut providers: Vec<(Vec<u8>, Key)> = Vec::new();
    let mut j: usize = 0;
    while j < reply.providers.len()
        invariant
            j <= reply.providers@.len(),
            providers@.len() == j,
            forall|x: int|
                0 <= x < j ==> (#[trigger] providers@[x]).0@ == reply.providers@[x].0@
                    && providers@[x].1 == reply.providers@[x].1,
        decreases reply.providers@.len() - j,
    {
        let e = &reply.providers[j];
        providers.push((clone_bytes(&e.0), e.1));
        j = j + 1;
    }
    let r = Message {
        type_of: t,
        from: (msg.to.0, clone_bytes(&msg.to.1)),
        to: (msg.from.0, clone_bytes(&msg.from.1)),
        key: (msg.key.0, clone_bytes(&msg.key.1)),
        keys,
        providers,
        data: (reply.data.0, reply.data.1.clone()),
    };
    proof {
        assert forall|i: int| 0 <= i < reply.keys@.len() implies r@.keys[i] == peer_view(
            #[trigger] reply.keys@[i],
        ) by {}
        assert forall|i: int| 0 <= i < reply.providers@.len() implies r@.providers[i] == ((
        #[trigger] reply.providers@[i]).0@, reply.providers@[i].1) by {}
    }
    r
}

/// The immediate echo with which a ping is answered: the envelope swapped,
/// everything else carried over.
pub fn ping_reply(msg: &Message) -> (r: Message)
    ensures
        r@.type_of == msg@.type_of,
        r@.from == msg@.to,
        r@.to == msg@.from,
        r@.key == msg@.key,
        r@.keys.len() == 0,
        r@.providers.len() == 0,
        r@.data == msg@.data,
{
    Message {
        type_of: msg.type_of,
        from: (msg.to.0, clone_bytes(&msg.to.1)),
        to: (msg.from.0, clone_bytes(&msg.from.1)),
        key: (msg.key.0, clone_bytes(&msg.key.1)),
        keys: Vec::new(),
        providers: Vec::new(),
        data: (msg.data.0, msg.data.1.clone()),
    }
}

/// Storing content under its name's fingerprint and reading that
/// fingerprint back gives the content unchanged: the local short circuit
/// of a lookup right after a store.
pub proof fn lemma_put_then_local_get(m: Map<Key, DataModel>, name: Seq<u8>, d: DataModel)
    ensures
        m.insert(Key { key: fingerprint_of(name) }, d).contains_key(
            Key { key: fingerprint_of(name) },
        ),
        m.insert(Key { key: fingerprint_of(name) }, d)[Key { key: fingerprint_of(name) }] == d,
{
}

} // verus!
