//! The consistent-hash ring: every node owns a fixed number of positions on
//! a circle of 64-bit numbers, and a key belongs to the node that owns the
//! first position at or after the key's own, going round.

use crate::text::{
    comes_before, lemma_order_irreflexive, lemma_order_total, lemma_order_transitive, number_text,
};
use hash_ring::HashRing;
use std::hash::BuildHasherDefault;
use std::hash::Hasher;
use twox_hash::XxHash64;
use vstd::multiset::Multiset;
use vstd::prelude::*;

verus! {

/// The hasher of the `twox_hash` crate that a ring hashes with.
#[verifier::external_type_specification]
#[verifier::external_body]
pub struct ExXxHash64(XxHash64);

/// The standard builder of hashers that start from their default state.
#[verifier::external_type_specification]
#[verifier::external_body]
#[verifier::reject_recursive_types(H)]
pub struct ExBuildHasherDefault<H>(BuildHasherDefault<H>);

/// The ring of the `hash_ring` crate. Its inside is not visible to proofs:
/// what it holds is named by `ring_points`, `ring_owners` and
/// `ring_replicas`.
#[verifier::external_type_specification]
#[verifier::external_body]
#[verifier::reject_recursive_types(T)]
#[verifier::reject_recursive_types(S)]
pub struct ExHashRing<T, S>(HashRing<T, S>);

/// The positions that a ring holds, each as often as it was entered.
pub uninterp spec fn ring_points(r: HashRing<String>) -> Multiset<u64>;

/// The node that a ring has on record for each of its positions.
pub uninterp spec fn ring_owners(r: HashRing<String>) -> Map<u64, Seq<char>>;

/// The number of positions that a ring gives to each node.
pub uninterp spec fn ring_replicas(r: HashRing<String>) -> int;

/// The 64-bit xxHash, with seed zero, of a text's UTF-8 bytes.
pub uninterp spec fn ring_hash(label: Seq<char>) -> u64;

/// The text that is hashed for the `i`-th position of a node.
pub open spec fn label(node: Seq<char>, i: int) -> Seq<char> {
    node + ":"@ + number_text(i as nat)
}

/// The `i`-th position of a node.
pub open spec fn position(node: Seq<char>, i: int) -> u64 {
    ring_hash(label(node, i))
}

/// Whether `p` is one of the first `replicas` positions of a node.
pub open spec fn is_position(p: u64, node: Seq<char>, replicas: int) -> bool {
    exists|i: int| 0 <= i < replicas && #[trigger] position(node, i) == p
}

/// The positions of a node are all different.
pub open spec fn distinct_positions(node: Seq<char>, replicas: int) -> bool {
    forall|i: int, j: int|
        0 <= i < replicas && 0 <= j < replicas && i != j ==> #[trigger] position(node, i)
            != #[trigger] position(node, j)
}

/// Whether `p` is the least of the points that are at least `from`.
pub open spec fn is_least_from(points: Set<u64>, from: u64, p: u64) -> bool {
    &&& points.contains(p)
    &&& p >= from
    &&& forall|q: u64| points.contains(q) && q >= from ==> p <= q
}

/// The point that serves a hash: the least point at or after it, and the
/// least point of all when there is none after it.
pub open spec fn successor(points: Set<u64>, hash: u64) -> u64 {
    if exists|p: u64| is_least_from(points, hash, p) {
        choose|p: u64| is_least_from(points, hash, p)
    } else {
        choose|p: u64| is_least_from(points, 0, p)
    }
}

/// The node that a ring has on record for the position that serves a hash.
pub open spec fn served_by(r: HashRing<String>, hash: u64) -> Seq<char> {
    ring_owners(r)[successor(ring_points(r).dom(), hash)]
}

/// Makes an empty ring, by `HashRing::new` on no nodes: it has no position,
/// and keeps the number of positions that each node will get.
#[verifier::external_body]
pub(crate) fn ring_new(replicas: u16) -> (r: HashRing<String>)
    ensures
        ring_points(r) == Multiset::<u64>::empty(),
        ring_owners(r) == (Map::<u64, Seq<char>>::empty()),
        ring_replicas(r) == replicas,
{
    HashRing::new(Vec::new(), replicas as isize)
}

/// The position of a label, by `XxHash64` as the ring builds it: a hasher
/// with seed zero that is fed the label's bytes.
#[verifier::external_body]
pub(crate) fn ring_position(label: &str) -> (p: u64)
    ensures
        p == ring_hash(label@),
{
    let mut hasher = XxHash64::default();
    hasher.write(label.as_bytes());
    hasher.finish()
}

/// What adding a node does to a ring: each position of the node is entered
/// once for each index that gives it, nothing else is entered, and the node
/// is on record for each of its positions, in place of the node that was on
/// record before.
pub open spec fn node_added(before: HashRing<String>, after: HashRing<String>, node: Seq<char>)
    -> bool {
    let replicas = ring_replicas(before);
    &&& ring_replicas(after) == replicas
    &&& forall|p: u64|
        #[trigger] ring_points(after).count(p) > 0 <==> ring_points(before).count(p) > 0
            || is_position(p, node, replicas)
    &&& forall|p: u64|
        !is_position(p, node, replicas) ==> #[trigger] ring_points(after).count(p)
            == ring_points(before).count(p)
    &&& forall|p: u64|
        distinct_positions(node, replicas) && is_position(p, node, replicas)
            ==> #[trigger] ring_points(after).count(p) == ring_points(before).count(p) + 1
    &&& forall|p: u64| #[trigger]
        ring_owners(after).dom().contains(p) <==> ring_owners(before).dom().contains(p)
            || is_position(p, node, replicas)
    &&& forall|p: u64|
        ring_owners(after).dom().contains(p) ==> #[trigger] ring_owners(after)[p]
            == if is_position(p, node, replicas) {
            node
        } else {
            ring_owners(before)[p]
        }
}

/// What removing a node does to a ring in which every position of the node
/// is held and on record, and no two of them coincide: each is taken out
/// once, with its record, and nothing else changes.
pub open spec fn node_removed(before: HashRing<String>, after: HashRing<String>, node: Seq<char>)
    -> bool {
    let replicas = ring_replicas(before);
    &&& ring_replicas(after) == replicas
    &&& forall|p: u64|
        #[trigger] ring_points(after).count(p) == ring_points(before).count(p) - (if is_position(
            p,
            node,
            replicas,
        ) {
            1nat
        } else {
            0nat
        })
    &&& forall|p: u64| #[trigger]
        ring_owners(after).dom().contains(p) <==> ring_owners(before).dom().contains(p)
            && !is_position(p, node, replicas)
    &&& forall|p: u64|
        ring_owners(after).dom().contains(p) ==> #[trigger] ring_owners(after)[p]
            == ring_owners(before)[p]
}

/// Adds a node, by `HashRing::add_node`.
#[verifier::external_body]
pub(crate) fn ring_add(r: &mut HashRing<String>, node: &String)
    ensures
        node_added(*old(r), *final(r), node@),
{
    r.add_node(node)
}

/// Removes a node, by `HashRing::remove_node`, where every position of the
/// node is held and on record, and no two of them coincide.
#[verifier::external_body]
pub(crate) fn ring_remove(r: &mut HashRing<String>, node: &String)
    requires
        distinct_positions(node@, ring_replicas(*old(r))),
        forall|i: int|
            0 <= i < ring_replicas(*old(r)) ==> ring_owners(*old(r)).dom().contains(
                #[trigger] position(node@, i),
            ) && ring_points(*old(r)).count(position(node@, i)) >= 1,
    ensures
        node_removed(*old(r), *final(r), node@),
{
    r.remove_node(node)
}

/// Finds the node of a key, by `HashRing::get_node`, where every position
/// held is on record: none on an empty ring, and else the node on record for
/// the position that serves the key's hash.
#[verifier::external_body]
pub(crate) fn ring_get(r: &HashRing<String>, key: String) -> (found: Option<String>)
    requires
        forall|p: u64|
            ring_points(*r).count(p) > 0 ==> #[trigger] ring_owners(*r).dom().contains(p),
    ensures
        found is None <==> ring_points(*r).len() == 0,
        found matches Some(n) ==> n@ == served_by(*r, ring_hash(key@)),
{
    r.get_node(key).cloned()
}


/// Whether `p` is a position of `node`, and `node` is one of the members.
pub open spec fn held_by(members: Set<Seq<char>>, replicas: int, p: u64, node: Seq<char>)
    -> bool {
    members.contains(node) && is_position(p, node, replicas)
}

/// The positions of all the members.
pub open spec fn points_of(members: Set<Seq<char>>, replicas: int) -> Set<u64> {
    Set::new(|p: u64| exists|node: Seq<char>| held_by(members, replicas, p, node))
}

/// Whether `node` is the member that a position belongs to: it holds the
/// position, and every other member that holds it comes before `node` in
/// the order of addresses.
pub open spec fn owns(members: Set<Seq<char>>, replicas: int, p: u64, node: Seq<char>) -> bool {
    &&& held_by(members, replicas, p, node)
    &&& forall|other: Seq<char>| #[trigger]
        held_by(members, replicas, p, other) ==> other == node || comes_before(other, node)
}

/// The member that a position belongs to. Where several members hold the
/// position, it is the last of them in the order of addresses.
pub open spec fn owner_of(members: Set<Seq<char>>, replicas: int, p: u64) -> Seq<char> {
    choose|node: Seq<char>| owns(members, replicas, p, node)
}

/// Every position that is held belongs to a member: among the members
/// that hold it, one comes last. This holds of every finite set of members.
pub open spec fn ties_decided(members: Set<Seq<char>>, replicas: int) -> bool {
    forall|p: u64| #[trigger]
        points_of(members, replicas).contains(p) ==> owns(
            members,
            replicas,
            p,
            owner_of(members, replicas, p),
        )
}

/// The member that a key belongs to: none while the ring has no position,
/// and else the member that owns the position serving the key's hash.
pub open spec fn route(members: Set<Seq<char>>, replicas: int, key: Seq<char>) -> Option<
    Seq<char>,
> {
    let points = points_of(members, replicas);
    if exists|p: u64| points.contains(p) {
        Some(owner_of(members, replicas, successor(points, ring_hash(key))))
    } else {
        None
    }
}

/// Whether every key that did not belong to `gone` is found with the same
/// member after as before.
pub open spec fn others_keep_their_keys(
    before: Set<Seq<char>>,
    after: Set<Seq<char>>,
    replicas: int,
    gone: Seq<char>,
) -> bool {
    forall|key: Seq<char>|
        #[trigger] route(before, replicas, key) != Some(gone) ==> route(after, replicas, key)
            == route(before, replicas, key)
}

proof fn lemma_has_least(points: Set<u64>, from: u64, p: u64)
    requires
        points.contains(p),
        p >= from,
    ensures
        exists|m: u64| is_least_from(points, from, m),
    decreases p,
{
    if exists|q: u64| points.contains(q) && q >= from && q < p {
        let q = choose|q: u64| points.contains(q) && q >= from && q < p;
        lemma_has_least(points, from, q);
    } else {
        assert(is_least_from(points, from, p));
    }
}

/// The point that serves a hash is a point of the ring: the least one at or
/// after the hash, or the least of all when no point is at or after it.
pub proof fn lemma_successor(points: Set<u64>, hash: u64)
    requires
        exists|p: u64| points.contains(p),
    ensures
        points.contains(successor(points, hash)),
        is_least_from(points, hash, successor(points, hash)) || (is_least_from(
            points,
            0,
            successor(points, hash),
        ) && forall|q: u64| points.contains(q) ==> q < hash),
{
    let p = choose|p: u64| points.contains(p);
    if exists|m: u64| is_least_from(points, hash, m) {
    } else {
        lemma_has_least(points, 0, p);
        assert forall|q: u64| points.contains(q) implies q < hash by {
            if q >= hash {
                lemma_has_least(points, hash, q);
            }
        }
    }
}

/// A position has one owner at most.
pub proof fn lemma_one_owner(
    members: Set<Seq<char>>,
    replicas: int,
    p: u64,
    a: Seq<char>,
    b: Seq<char>,
)
    requires
        owns(members, replicas, p, a),
        owns(members, replicas, p, b),
    ensures
        a == b,
{
    if a != b {
        assert(held_by(members, replicas, p, a));
        assert(held_by(members, replicas, p, b));
        assert(comes_before(a, b));
        assert(comes_before(b, a));
        lemma_order_transitive(a, b, a);
        lemma_order_irreflexive(a);
    }
}

proof fn lemma_has_last(nodes: Set<Seq<char>>)
    requires
        nodes.finite(),
        nodes.len() > 0,
    ensures
        exists|last: Seq<char>|
            nodes.contains(last) && forall|node: Seq<char>| #[trigger]
                nodes.contains(node) ==> node == last || comes_before(node, last),
    decreases nodes.len(),
{
    let x = nodes.choose();
    let rest = nodes.remove(x);
    if rest.len() == 0 {
        assert forall|node: Seq<char>| #[trigger] nodes.contains(node) implies node == x by {
            if node != x {
                assert(rest.contains(node));
            }
        }
    } else {
        lemma_has_last(rest);
        let m = choose|last: Seq<char>|
            rest.contains(last) && forall|node: Seq<char>| #[trigger]
                rest.contains(node) ==> node == last || comes_before(node, last);
        lemma_order_total(x, m);
        if comes_before(m, x) {
            assert forall|node: Seq<char>| #[trigger] nodes.contains(node) implies node == x
                || comes_before(node, x) by {
                if node != x {
                    assert(rest.contains(node));
                    if node != m {
                        lemma_order_transitive(node, m, x);
                    }
                }
            }
        } else {
            assert forall|node: Seq<char>| #[trigger] nodes.contains(node) implies node == m
                || comes_before(node, m) by {
                if node != x {
                    assert(rest.contains(node));
                }
            }
        }
    }
}

/// Among finitely many members, every position that is held has an owner.
pub proof fn lemma_finite_decides(members: Set<Seq<char>>, replicas: int)
    requires
        members.finite(),
    ensures
        ties_decided(members, replicas),
{
    assert forall|p: u64| #[trigger] points_of(members, replicas).contains(p) implies owns(
        members,
        replicas,
        p,
        owner_of(members, replicas, p),
    ) by {
        let holders = Set::new(|node: Seq<char>| held_by(members, replicas, p, node));
        let one = choose|node: Seq<char>| held_by(members, replicas, p, node);
        assert(holders.contains(one));
        vstd::set_lib::lemma_len_subset(holders, members);
        if holders.len() == 0 {
            assert(holders =~= Set::<Seq<char>>::empty());
        }
        lemma_has_last(holders);
        let last = choose|last: Seq<char>|
            holders.contains(last) && forall|node: Seq<char>| #[trigger]
                holders.contains(node) ==> node == last || comes_before(node, last);
        assert(owns(members, replicas, p, last)) by {
            assert forall|other: Seq<char>| #[trigger]
                held_by(members, replicas, p, other) implies other == last || comes_before(
                other,
                last,
            ) by {
                assert(holders.contains(other));
            }
        }
    }
}

/// A key is found with some member exactly when there are a member and a
/// position to hold.
pub proof fn lemma_route_is_some(members: Set<Seq<char>>, replicas: int, key: Seq<char>)
    ensures
        route(members, replicas, key) is Some <==> replicas > 0 && exists|node: Seq<char>|
            members.contains(node),
{
    let points = points_of(members, replicas);
    if exists|p: u64| points.contains(p) {
        let p = choose|p: u64| points.contains(p);
        let holder = choose|node: Seq<char>| held_by(members, replicas, p, node);
        assert(held_by(members, replicas, p, holder));
    } else {
        if replicas > 0 && exists|node: Seq<char>| members.contains(node) {
            let node = choose|node: Seq<char>| members.contains(node);
            let p = position(node, 0);
            assert(held_by(members, replicas, p, node));
            assert(points.contains(p));
        }
    }
}

/// The member found for a key is a member.
pub proof fn lemma_route_is_member(members: Set<Seq<char>>, replicas: int, key: Seq<char>)
    requires
        ties_decided(members, replicas),
    ensures
        route(members, replicas, key) matches Some(node) ==> members.contains(node),
{
    let points = points_of(members, replicas);
    if exists|p: u64| points.contains(p) {
        lemma_successor(points, ring_hash(key));
    }
}

/// Taking a member out of the ring changes the member found for a key only
/// where that key belonged to the member taken out: every other key stays
/// with the member it had.
pub proof fn lemma_removal_keeps_others(
    members: Set<Seq<char>>,
    replicas: int,
    gone: Seq<char>,
    key: Seq<char>,
)
    requires
        ties_decided(members, replicas),
        route(members, replicas, key) != Some(gone),
    ensures
        route(members.remove(gone), replicas, key) == route(members, replicas, key),
{
    let rest = members.remove(gone);
    let before = points_of(members, replicas);
    let after = points_of(rest, replicas);
    let hash = ring_hash(key);
    assert forall|p: u64| after.contains(p) implies before.contains(p) by {
        let node = choose|node: Seq<char>| held_by(rest, replicas, p, node);
        assert(held_by(members, replicas, p, node));
    }
    if exists|p: u64| before.contains(p) {
        lemma_successor(before, hash);
        let s = successor(before, hash);
        let node = owner_of(members, replicas, s);
        assert(owns(members, replicas, s, node));
        assert(node != gone);
        assert(held_by(rest, replicas, s, node));
        assert(after.contains(s));
        lemma_successor(after, hash);
        let t = successor(after, hash);
        if is_least_from(before, hash, s) {
            assert(is_least_from(after, hash, s));
            assert(is_least_from(after, hash, t));
        } else {
            assert(is_least_from(after, 0, s));
            assert(!exists|m: u64| is_least_from(after, hash, m));
        }
        assert(s == t);
        assert(owns(rest, replicas, s, node)) by {
            assert forall|other: Seq<char>| #[trigger]
                held_by(rest, replicas, s, other) implies other == node || comes_before(
                other,
                node,
            ) by {
                assert(held_by(members, replicas, s, other));
            }
        }
        let found = owner_of(rest, replicas, s);
        assert(owns(rest, replicas, s, found));
        lemma_one_owner(rest, replicas, s, node, found);
    } else {
    }
}

} // verus!
