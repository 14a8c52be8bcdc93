use vstd::prelude::*;

use vstd::multiset::Multiset;

use crate::data::clone_bytes;
use crate::key::Key;
use priority_queue::PriorityQueue;
use std::collections::hash_map::RandomState;

verus! {

broadcast use vstd::multiset::group_multiset_axioms;

/// How many peers a k-closest lookup returns at most.
pub const K_CLOSEST: usize = 20;

/// Declares priority_queue::PriorityQueue so that it can stand in
/// signatures; the queue stays opaque, spoken of only through
/// `pq_contents`.
#[verifier::external_type_specification]
#[verifier::external_body]
#[verifier::reject_recursive_types(I)]
#[verifier::reject_recursive_types(P)]
#[verifier::reject_recursive_types(H)]
pub struct ExPriorityQueue<I, P, H>(PriorityQueue<I, P, H>);

/// What a queue holds: the multiset of its (item, priority) pairs.
pub uninterp spec fn pq_contents(q: PriorityQueue<u32, u32, RandomState>) -> Multiset<(u32, u32)>;

/// Relies on PriorityQueue::new: it creates an empty queue.
#[verifier::external_body]
fn pq_new() -> (q: PriorityQueue<u32, u32, RandomState>)
    ensures
        pq_contents(q) == Multiset::<(u32, u32)>::empty(),
{
    PriorityQueue::new()
}

/// Relies on PriorityQueue::push: an item not yet present is inserted with
/// the given priority.
#[verifier::external_body]
fn pq_push(q: &mut PriorityQueue<u32, u32, RandomState>, item: u32, prio: u32)
    requires
        forall|p: u32| !pq_contents(*old(q)).contains((item, p)),
    ensures
        pq_contents(*final(q)) == pq_contents(*old(q)).insert((item, prio)),
{
    q.push(item, prio);
}

/// Relies on PriorityQueue::is_empty: it tells whether the queue holds
/// no pairs.
#[verifier::external_body]
fn pq_is_empty(q: &PriorityQueue<u32, u32, RandomState>) -> (r: bool)
    ensures
        r == (pq_contents(*q).len() == 0),
{
    q.is_empty()
}

/// Relies on PriorityQueue::pop: it removes and returns a pair whose
/// priority is greatest, or None when the queue is empty.
#[verifier::external_body]
fn pq_pop(q: &mut PriorityQueue<u32, u32, RandomState>) -> (r: Option<(u32, u32)>)
    ensures
        match r {
            None => pq_contents(*old(q)).len() == 0 && pq_contents(*final(q)) == pq_contents(
                *old(q),
            ),
            Some(pair) => pq_contents(*old(q)).contains(pair) && pq_contents(*final(q))
                == pq_contents(*old(q)).remove(pair) && forall|other: (u32, u32)|
                pq_contents(*old(q)).contains(other) ==> other.1 <= pair.1,
        },
{
    q.pop()
}

/// The priority under which a peer is queued: greater means closer to the
/// target, so the queue hands the nearest peers out first.
pub open spec fn prio_of(target: u32, k: u32) -> u32 {
    (0xffff_ffffu32 - (target ^ k)) as u32
}

/// The pairs that a sequence of routing entries contributes to the queue.
pub open spec fn queue_of(s: Seq<(Key, Vec<u8>)>, target: u32) -> Multiset<(u32, u32)>
    decreases s.len(),
{
    if s.len() == 0 {
        Multiset::empty()
    } else {
        queue_of(s.drop_last(), target).insert((s.last().0.key, prio_of(target, s.last().0.key)))
    }
}

/// Every pair in the queue of some entries names one of them, with that
/// entry's priority.
proof fn lemma_queue_of_members(s: Seq<(Key, Vec<u8>)>, target: u32)
    ensures
        forall|pair: (u32, u32)| #[trigger]
            queue_of(s, target).contains(pair) ==> exists|j: int|
                0 <= j < s.len() && pair == ((#[trigger] s[j]).0.key, prio_of(target, s[j].0.key)),
    decreases s.len(),
{
    if s.len() > 0 {
        lemma_queue_of_members(s.drop_last(), target);
        assert forall|pair: (u32, u32)| #[trigger]
            queue_of(s, target).contains(pair) implies exists|j: int|
            0 <= j < s.len() && pair == ((#[trigger] s[j]).0.key, prio_of(target, s[j].0.key)) by {
            let last_pair = (s.last().0.key, prio_of(target, s.last().0.key));
            if pair == last_pair {
                assert(s[s.len() - 1].0.key == s.last().0.key);
            } else {
                assert(queue_of(s.drop_last(), target).contains(pair));
                let j = choose|j: int|
                    0 <= j < s.drop_last().len() && pair == ((#[trigger] s.drop_last()[j]).0.key,
                    prio_of(target, s.drop_last()[j].0.key));
                assert(s[j] == s.drop_last()[j]);
            }
        }
    }
}

/// A key that no entry carries is queued under no priority.
proof fn lemma_queue_of_absent(s: Seq<(Key, Vec<u8>)>, target: u32, k: u32)
    requires
        forall|j: int| 0 <= j < s.len() ==> (#[trigger] s[j]).0.key != k,
    ensures
        forall|p: u32| !queue_of(s, target).contains((k, p)),
    decreases s.len(),
{
    if s.len() > 0 {
        assert(forall|j: int|
            0 <= j < s.drop_last().len() ==> (#[trigger] s.drop_last()[j]).0.key != k);
        lemma_queue_of_absent(s.drop_last(), target, k);
        assert(s[s.len() - 1].0.key != k);
        assert forall|p: u32| !queue_of(s, target).contains((k, p)) by {
            assert(!queue_of(s.drop_last(), target).contains((k, p)));
            assert((s.last().0.key, prio_of(target, s.last().0.key)) != (k, p));
        }
    }
}

/// With unique routing keys, each (key, priority) pair is queued at most once.
proof fn lemma_queue_of_count(s: Seq<(Key, Vec<u8>)>, target: u32, pair: (u32, u32))
    requires
        crate::store::unique_keys(s),
    ensures
        queue_of(s, target).count(pair) <= 1,
    decreases s.len(),
{
    if s.len() > 0 {
        assert(crate::store::unique_keys(s.drop_last())) by {
            assert(forall|x: int|
                0 <= x < s.drop_last().len() ==> #[trigger] s.drop_last()[x] == s[x]);
        }
        lemma_queue_of_count(s.drop_last(), target, pair);
        let last_pair = (s.last().0.key, prio_of(target, s.last().0.key));
        if pair == last_pair {
            assert(forall|j: int|
                0 <= j < s.drop_last().len() ==> (#[trigger] s.drop_last()[j]).0.key != pair.0) by {
                assert(forall|j: int|
                    0 <= j < s.len() - 1 ==> (#[trigger] s[j]).0 != s[s.len() - 1].0);
                assert(forall|j: int|
                    0 <= j < s.drop_last().len() ==> #[trigger] s.drop_last()[j] == s[j]);
            }
            lemma_queue_of_absent(s.drop_last(), target, pair.0);
            assert(!queue_of(s.drop_last(), target).contains((pair.0, pair.1)));
            assert(pair == (pair.0, pair.1));
            assert(queue_of(s.drop_last(), target).count(pair) == 0);
        }
    }
}

/// The distance that a queued priority stands for.
pub open spec fn dist_of_prio(p: u32) -> int {
    0xffff_ffff - p
}

/// Looks an identifier up among the entries and hands its address back.
fn addr_of_key(t: &Vec<(Key, Vec<u8>)>, k: u32) -> (r: Option<Vec<u8>>)
    ensures
        match r {
            Some(a) => exists|j: int|
                0 <= j < t@.len() && (#[trigger] t@[j]).0.key == k && a@ == t@[j].1@,
            None => forall|j: int| 0 <= j < t@.len() ==> (#[trigger] t@[j]).0.key != k,
        },
{
    let n = t.len();
    let mut i: usize = 0;
    while i < n
        invariant
            n == t@.len(),
            i <= n,
            forall|j: int| 0 <= j < i ==> (#[trigger] t@[j]).0.key != k,
        decreases n - i,
    {
        let e = &t[i];
        if e.0.key == k {
            return Some(clone_bytes(&e.1));
        }
        i = i + 1;
    }
    None
}

/// The selected peers are sorted nearest-first by XOR distance to the target.
pub open spec fn sorted_by_distance(r: Seq<(Key, Vec<u8>)>, target: Key) -> bool {
    forall|a: int, b: int|
        0 <= a < b < r.len() ==> ((#[trigger] r[a]).0.key ^ target.key) <= ((#[trigger] r[b]).0.key
            ^ target.key)
}

/// No identifier is handed out twice.
pub open spec fn distinct_peer_keys(r: Seq<(Key, Vec<u8>)>) -> bool {
    forall|a: int, b: int| 0 <= a < b < r.len() ==> (#[trigger] r[a]).0 != (#[trigger] r[b]).0
}

/// Every handed-out peer is a known one, with its recorded address.
pub open spec fn sound_peers(r: Seq<(Key, Vec<u8>)>, m: Map<Key, Seq<u8>>) -> bool {
    forall|i: int|
        0 <= i < r.len() ==> m.contains_key((#[trigger] r[i]).0) && r[i].1@ == m[r[i].0]
}

/// Whether some handed-out peer carries the identifier.
pub open spec fn has_peer_key(r: Seq<(Key, Vec<u8>)>, k: Key) -> bool {
    exists|j: int| 0 <= j < r.len() && (#[trigger] r[j]).0 == k
}

/// Every known peer left unselected lies at least as far from the target
/// as every selected one: the selection really is the nearest peers.
pub open spec fn covers_nearest(r: Seq<(Key, Vec<u8>)>, m: Map<Key, Seq<u8>>, target: Key) -> bool {
    forall|k: Key, i: int|
        #![trigger m.contains_key(k), r[i]]
        m.contains_key(k) && 0 <= i < r.len() && !has_peer_key(r, k) ==> (r[i].0.key ^ target.key)
            <= (k.key ^ target.key)
}

/// What a k-closest selection from a table of `n` peers must be.
pub open spec fn is_k_closest(r: Seq<(Key, Vec<u8>)>, m: Map<Key, Seq<u8>>, n: int, target: Key) -> bool {
    &&& r.len() == vstd::math::min(K_CLOSEST as int, n)
    &&& sorted_by_distance(r, target)
    &&& sound_peers(r, m)
    &&& distinct_peer_keys(r)
    &&& covers_nearest(r, m, target)
}

/// The k-closest selection: up to `K_CLOSEST` peers out of the given
/// snapshot entries, nearest to the target first by XOR distance.
pub fn k_closest_of_entries(t: &Vec<(Key, Vec<u8>)>, target: Key) -> (r: Vec<(Key, Vec<u8>)>)
    requires
        crate::store::unique_keys(t@),
    ensures
        r@.len() <= K_CLOSEST,
        r@.len() == vstd::math::min(K_CLOSEST as int, t@.len() as int),
        sorted_by_distance(r@, target),
        forall|i: int|
            0 <= i < r@.len() ==> exists|j: int|
                0 <= j < t@.len() && (#[trigger] r@[i]).0 == (#[trigger] t@[j]).0 && r@[i].1@
                    == t@[j].1@,
        distinct_peer_keys(r@),
        forall|j: int, i: int|
            #![trigger t@[j], r@[i]]
            0 <= j < t@.len() && 0 <= i < r@.len() && !has_peer_key(r@, t@[j].0) ==> (r@[i].0.key
                ^ target.key) <= (t@[j].0.key ^ target.key),
{
    let ghost s = t@;
    let n = t.len();
    let mut q = pq_new();

    let mut i: usize = 0;
    while i < n
        invariant
            n == s.len(),
            s == t@,
            crate::store::unique_keys(s),
            i <= n,
            pq_contents(q) == queue_of(s.subrange(0, i as int), target.key),
            pq_contents(q).len() == i,
        decreases n - i,
    {
        let e = &t[i];
        let d = target.distance(e.0);
        let prio = 0xffff_ffffu32 - d;
        proof {
            let pre = s.subrange(0, i as int);
            assert(forall|j: int| 0 <= j < pre.len() ==> #[trigger] pre[j] == s[j]);
            assert(forall|j: int| 0 <= j < i ==> (#[trigger] pre[j]).0.key != s[i as int].0.key)
                by {
                assert(forall|j: int| 0 <= j < i ==> (#[trigger] s[j]).0 != s[i as int].0);
            }
            lemma_queue_of_absent(pre, target.key, s[i as int].0.key);
            let tk = target.key;
            let ek = s[i as int].0.key;
            assert((tk ^ ek) == (ek ^ tk)) by (bit_vector);
            assert(prio == prio_of(target.key, s[i as int].0.key));
        }
        pq_push(&mut q, e.0.key, prio);
        i = i + 1;
        proof {
            let pre = s.subrange(0, i as int);
            assert(pre.drop_last() =~= s.subrange(0, i as int - 1));
            assert(pre.last() == s[i as int - 1]);
            assert(pq_contents(q) =~= queue_of(pre, target.key));
        }
    }

    proof {
        assert(s.subrange(0, n as int) =~= s);
        assert forall|j: int| 0 <= j < s.len() implies pq_contents(q).contains(
            (s[j].0.key, prio_of(target.key, s[j].0.key)),
        ) by {
            lemma_queue_of_has_entry(s, target.key, j);
        }
    }

    let mut out: Vec<(Key, Vec<u8>)> = Vec::new();
    while out.len() < K_CLOSEST && !pq_is_empty(&q)
        invariant
            s == t@,
            crate::store::unique_keys(s),
            out@.len() <= K_CLOSEST,
            out@.len() + pq_contents(q).len() == s.len(),
            // the queue never grows a pair beyond what the entries put in
            forall|pair: (u32, u32)|
                #[trigger] pq_contents(q).count(pair) <= queue_of(s, target.key).count(pair),
            // every entry was either handed out or is still queued
            forall|j: int|
                0 <= j < s.len() ==> (exists|x: int|
                    0 <= x < out@.len() && (#[trigger] out@[x]).0 == (#[trigger] s[j]).0)
                    || pq_contents(q).contains((s[j].0.key, prio_of(target.key, s[j].0.key))),
            // no queued pair repeats a key already handed out, and every
            // queued pair lies at or beyond every distance already handed out
            forall|pair: (u32, u32), x: int|
                #[trigger] pq_contents(q).contains(pair) && 0 <= x < out@.len() ==> pair.0 != (
                #[trigger] out@[x]).0.key && ((out@[x]).0.key ^ target.key) <= dist_of_prio(pair.1),
            // what was handed out is sound, sorted and duplicate-free
            forall|x: int|
                0 <= x < out@.len() ==> exists|j: int|
                    0 <= j < s.len() && (#[trigger] out@[x]).0 == (#[trigger] s[j]).0 && out@[x].1@
                        == s[j].1@,
            forall|a: int, b: int|
                0 <= a < b < out@.len() ==> ((#[trigger] out@[a]).0.key ^ target.key) <= ((
                #[trigger] out@[b]).0.key ^ target.key),
            forall|a: int, b: int|
                0 <= a < b < out@.len() ==> (#[trigger] out@[a]).0 != (#[trigger] out@[b]).0,
        decreases pq_contents(q).len(),
    {
        let ghost pre_contents = pq_contents(q);
        let popped = pq_pop(&mut q);
        let (k, prio) = popped.unwrap();
        proof {
            assert(pre_contents.contains((k, prio)));
            assert(queue_of(s, target.key).contains((k, prio))) by {
                assert(pre_contents.count((k, prio)) <= queue_of(s, target.key).count((k, prio)));
            }
            lemma_queue_of_members(s, target.key);
            let jw = choose|j: int|
                0 <= j < s.len() && (k, prio) == ((#[trigger] s[j]).0.key, prio_of(
                    target.key,
                    s[j].0.key,
                ));
            assert(prio == prio_of(target.key, k));
            assert(pre_contents.remove((k, prio)).len() == pre_contents.len() - 1);
        }
        let addr = addr_of_key(t, k);
        let a = match addr {
            Some(a) => a,
            None => {
                proof {
                    let j = choose|j: int|
                        0 <= j < s.len() && (k, prio) == ((#[trigger] s[j]).0.key, prio_of(
                            target.key,
                            s[j].0.key,
                        ));
                    assert(false);
                }
                Vec::new()
            },
        };
        let ghost old_out = out@;
        out.push((Key { key: k }, a));
        proof {
            let j = choose|j: int|
                0 <= j < t@.len() && (#[trigger] t@[j]).0.key == k && a@ == t@[j].1@;
            assert(out@[out@.len() - 1] == (Key { key: k }, a));
            assert(exists|x: int|
                0 <= x < s.len() && (Key { key: k }) == (#[trigger] s[x]).0 && a@ == s[x].1@) by {
                assert(s[j].0 == Key { key: k });
            }
            let tk = target.key;
            assert((tk ^ k) == (k ^ tk)) by (bit_vector);
            assert(dist_of_prio(prio) == (k ^ target.key));
            assert forall|x: int, y: int| 0 <= x < y < out@.len() implies ((#[trigger] out@[x]).0.key
                ^ target.key) <= ((#[trigger] out@[y]).0.key ^ target.key) && (out@[x]).0 != (
            out@[y]).0 by {
                if y == out@.len() - 1 {
                    assert(out@[x] == old_out[x]);
                    assert(pre_contents.contains((k, prio)));
                    assert((old_out[x].0.key ^ target.key) <= dist_of_prio(prio));
                    assert(old_out[x].0.key != k);
                } else {
                    assert(out@[x] == old_out[x] && out@[y] == old_out[y]);
                }
            }
            assert forall|pair: (u32, u32), x: int|
                #[trigger] pq_contents(q).contains(pair) && 0 <= x < out@.len() implies pair.0 != (
            #[trigger] out@[x]).0.key && ((out@[x]).0.key ^ target.key) <= dist_of_prio(pair.1) by {
                assert(pq_contents(q).count(pair) <= pre_contents.count(pair));
                assert(pre_contents.contains(pair));
                if x == out@.len() - 1 {
                    assert(pair.1 <= prio);
                    if pair.0 == k {
                        assert(queue_of(s, target.key).contains(pair)) by {
                            assert(pre_contents.count(pair) <= queue_of(s, target.key).count(pair));
                        }
                        assert(pair.1 == prio_of(target.key, pair.0) && pair.0 == k) by {
                            let j1 = choose|j: int|
                                0 <= j < s.len() && pair == ((#[trigger] s[j]).0.key, prio_of(
                                    target.key,
                                    s[j].0.key,
                                ));
                        }
                        assert(pair == (k, prio)) by {
                            assert(prio == prio_of(target.key, k));
                        }
                        assert(pq_contents(q).count(pair) == pre_contents.count(pair) - 1);
                        assert(pre_contents.count((k, prio)) <= 1) by {
                            lemma_queue_of_count(s, target.key, (k, prio));
                        }
                        assert(false);
                    }
                } else {
                    assert(out@[x] == old_out[x]);
                }
            }
            assert forall|pair: (u32, u32)| #[trigger] pq_contents(q).count(pair) <= queue_of(
                s,
                target.key,
            ).count(pair) by {
                assert(pq_contents(q).count(pair) <= pre_contents.count(pair));
            }
            assert forall|j2: int| 0 <= j2 < s.len() implies (exists|x: int|
                0 <= x < out@.len() && (#[trigger] out@[x]).0 == (#[trigger] s[j2]).0)
                || pq_contents(q).contains(
                (s[j2].0.key, prio_of(target.key, s[j2].0.key)),
            ) by {
                let pair2 = (s[j2].0.key, prio_of(target.key, s[j2].0.key));
                if s[j2].0.key == k {
                    assert(out@[out@.len() - 1].0 == s[j2].0);
                } else {
                    if !(exists|x: int|
                        0 <= x < old_out.len() && (#[trigger] old_out[x]).0 == s[j2].0) {
                        assert(pre_contents.contains(pair2));
                        assert(pair2 != (k, prio));
                        assert(pq_contents(q).count(pair2) == pre_contents.count(pair2));
                        assert(forall|x: int|
                            0 <= x < out@.len() - 1 ==> (#[trigger] out@[x]) == old_out[x]);
                    } else {
                        let x = choose|x: int|
                            0 <= x < old_out.len() && (#[trigger] old_out[x]).0 == s[j2].0;
                        assert(out@[x].0 == s[j2].0);
                    }
                }
            }
        }
    }
    proof {
        broadcast use vstd::multiset::lemma_multiset_empty_len;

        if out@.len() < K_CLOSEST {
            assert(pq_contents(q).len() == 0);
        }
        assert forall|j: int, i: int|
            #![trigger s[j], out@[i]]
            0 <= j < s.len() && 0 <= i < out@.len() && !has_peer_key(out@, s[j].0) implies ((
        out@[i]).0.key ^ target.key) <= (s[j].0.key ^ target.key) by {
            let pair2 = (s[j].0.key, prio_of(target.key, s[j].0.key));
            assert(pq_contents(q).contains(pair2)) by {
                if exists|x: int| 0 <= x < out@.len() && (#[trigger] out@[x]).0 == s[j].0 {
                    assert(has_peer_key(out@, s[j].0));
                }
            }
            assert((out@[i].0.key ^ target.key) <= dist_of_prio(pair2.1));
            let tk = target.key;
            let sk = s[j].0.key;
            assert((tk ^ sk) == (sk ^ tk)) by (bit_vector);
        }
    }
    out
}

/// Each entry's pair is in the queue that all the entries make.
proof fn lemma_queue_of_has_entry(s: Seq<(Key, Vec<u8>)>, target: u32, j: int)
    requires
        0 <= j < s.len(),
    ensures
        queue_of(s, target).contains((s[j].0.key, prio_of(target, s[j].0.key))),
    decreases s.len(),
{
    if j == s.len() - 1 {
        assert(s.last() == s[j]);
    } else {
        lemma_queue_of_has_entry(s.drop_last(), target, j);
        assert(s.drop_last()[j] == s[j]);
    }
}


/// A peer list that matches another one pairwise in identifier and address
/// is a k-closest selection whenever the other is.
pub proof fn lemma_k_closest_transfer(
    a: Seq<(Key, Vec<u8>)>,
    b: Seq<(Key, Vec<u8>)>,
    m: Map<Key, Seq<u8>>,
    n: int,
    target: Key,
)
    requires
        is_k_closest(a, m, n, target),
        b.len() == a.len(),
        forall|i: int|
            0 <= i < b.len() ==> (#[trigger] b[i]).0 == a[i].0 && b[i].1@ == a[i].1@,
    ensures
        is_k_closest(b, m, n, target),
{
    assert forall|k: Key| has_peer_key(b, k) == has_peer_key(a, k) by {
        if has_peer_key(b, k) {
            let j = choose|j: int| 0 <= j < b.len() && (#[trigger] b[j]).0 == k;
            assert(a[j].0 == k);
        }
        if has_peer_key(a, k) {
            let j = choose|j: int| 0 <= j < a.len() && (#[trigger] a[j]).0 == k;
            assert(b[j].0 == k);
        }
    }
    assert forall|k: Key, i: int|
        #![trigger m.contains_key(k), b[i]]
        m.contains_key(k) && 0 <= i < b.len() && !has_peer_key(b, k) implies (b[i].0.key
        ^ target.key) <= (k.key ^ target.key) by {
        assert(a[i] == a[i]);
    }
    assert forall|i: int| 0 <= i < b.len() implies m.contains_key((#[trigger] b[i]).0) && b[i].1@
        == m[b[i].0] by {
        assert(a[i] == a[i]);
    }
}

} // verus!
