//! The routing service of the master: the registry of live partitions and
//! the hash ring over their addresses, kept in step with each other.

use crate::registry::{
    address_index, addresses, distinct_addresses, insertion_index, lemma_address_index,
    lemma_insertion_index, lemma_sorted_is_distinct, sorted_addresses, Partition,
};
use crate::ring::{
    distinct_positions, held_by, is_position, label, lemma_one_owner,
    lemma_removal_keeps_others, lemma_successor, node_added, node_removed,
    others_keep_their_keys, owner_of, owns, points_of, position, ring_add, ring_get, ring_hash,
    ring_new, ring_owners, ring_points, ring_position, ring_remove, ring_replicas, route,
    successor, ties_decided,
};
use crate::text::{
    comes_before, lemma_order_irreflexive, lemma_order_total, lemma_order_transitive, precedes,
    same_text, write_number,
};
use hash_ring::HashRing;
use vstd::prelude::*;
use vstd::string::*;

verus! {

/// Whether a member shares none of its positions: no two of its own
/// coincide, and no other member holds one of them.
pub open spec fn alone(members: Set<Seq<char>>, replicas: int, node: Seq<char>) -> bool {
    &&& distinct_positions(node, replicas)
    &&& forall|p: u64, other: Seq<char>|
        #[trigger] held_by(members, replicas, p, other) && is_position(p, node, replicas)
            ==> other == node
}

/// The ring holds exactly the positions of the members.
pub open spec fn holds_points(ring: HashRing<String>, members: Set<Seq<char>>, replicas: int)
    -> bool {
    &&& forall|p: u64|
        #[trigger] ring_points(ring).count(p) > 0 <==> points_of(members, replicas).contains(p)
    &&& forall|p: u64| #[trigger]
        ring_owners(ring).dom().contains(p) <==> points_of(members, replicas).contains(p)
}

/// The ring has each position on record for the member that owns it.
pub open spec fn records_owners(ring: HashRing<String>, members: Set<Seq<char>>, replicas: int)
    -> bool {
    forall|p: u64|
        points_of(members, replicas).contains(p) ==> owns(
            members,
            replicas,
            p,
            #[trigger] ring_owners(ring)[p],
        )
}

/// The ring holds once each position of a member that shares none.
pub open spec fn counts_alone(ring: HashRing<String>, members: Set<Seq<char>>, replicas: int)
    -> bool {
    forall|p: u64, node: Seq<char>|
        #[trigger] held_by(members, replicas, p, node) && alone(members, replicas, node)
            ==> ring_points(ring).count(p) == 1
}

/// The ring holds exactly the positions of the members, and has each of
/// them on record for the member that owns it.
pub open spec fn mirrors(ring: HashRing<String>, members: Set<Seq<char>>, replicas: int) -> bool {
    &&& holds_points(ring, members, replicas)
    &&& records_owners(ring, members, replicas)
    &&& counts_alone(ring, members, replicas)
}

/// The partitions after a registration: a new one stands at its address's
/// place in the order of addresses, and the record of an address that was
/// registered already is replaced where it stands.
pub open spec fn registered(partitions: Seq<Partition>, partition: Partition) -> Seq<Partition> {
    if addresses(partitions).contains(partition.addr@) {
        partitions.update(address_index(partitions, partition.addr@), partition)
    } else {
        partitions.insert(insertion_index(partitions, partition.addr@), partition)
    }
}

/// The record that a registration replaces, if the address was registered.
pub open spec fn replaced_by(partitions: Seq<Partition>, partition: Partition) -> Option<
    Partition,
> {
    if addresses(partitions).contains(partition.addr@) {
        Some(partitions[address_index(partitions, partition.addr@)])
    } else {
        None
    }
}

/// The partitions once the one with the given address, if any, has left.
pub open spec fn unregistered(partitions: Seq<Partition>, addr: Seq<char>) -> Seq<Partition> {
    if addresses(partitions).contains(addr) {
        partitions.remove(address_index(partitions, addr))
    } else {
        partitions
    }
}

proof fn lemma_insert_address(partitions: Seq<Partition>, at: int, p: Partition)
    requires
        sorted_addresses(partitions),
        0 <= at <= partitions.len(),
        forall|j: int| 0 <= j < at ==> comes_before((#[trigger] partitions[j]).addr@, p.addr@),
        at < partitions.len() ==> comes_before(p.addr@, partitions[at].addr@),
    ensures
        addresses(partitions.insert(at, p)) == addresses(partitions).insert(p.addr@),
        sorted_addresses(partitions.insert(at, p)),
{
    let all = partitions.insert(at, p);
    assert forall|i: int| 0 <= i < all.len() implies #[trigger] all[i] == (if i < at {
        partitions[i]
    } else if i == at {
        p
    } else {
        partitions[i - 1]
    }) by {}
    assert forall|a: Seq<char>| addresses(all).contains(a) <==> addresses(partitions).insert(
        p.addr@,
    ).contains(a) by {
        if addresses(all).contains(a) {
            let i = choose|i: int| 0 <= i < all.len() && (#[trigger] all[i]).addr@ == a;
            if i < at {
                assert(partitions[i].addr@ == a);
            } else if i > at {
                assert(partitions[i - 1].addr@ == a);
            }
        }
        if addresses(partitions).contains(a) {
            let k = choose|k: int|
                0 <= k < partitions.len() && (#[trigger] partitions[k]).addr@ == a;
            let i = if k < at {
                k
            } else {
                k + 1
            };
            assert(all[i].addr@ == a);
        }
        if a == p.addr@ {
            assert(all[at].addr@ == a);
        }
    }
    assert(addresses(all) =~= addresses(partitions).insert(p.addr@));
    assert forall|i: int, j: int| 0 <= i < j < all.len() implies comes_before(
        (#[trigger] all[i]).addr@,
        (#[trigger] all[j]).addr@,
    ) by {
        if j < at {
            assert(all[i] == partitions[i] && all[j] == partitions[j]);
        } else if j == at {
            assert(all[i] == partitions[i]);
        } else if i < at {
            assert(all[i] == partitions[i] && all[j] == partitions[j - 1]);
            if j - 1 > at {
                assert(comes_before(partitions[i].addr@, partitions[j - 1].addr@));
            } else {
                lemma_order_transitive(partitions[i].addr@, p.addr@, partitions[at].addr@);
            }
        } else if i == at {
            assert(all[j] == partitions[j - 1]);
            if j - 1 > at {
                assert(comes_before(partitions[at].addr@, partitions[j - 1].addr@));
                lemma_order_transitive(p.addr@, partitions[at].addr@, partitions[j - 1].addr@);
            }
        } else {
            assert(all[i] == partitions[i - 1] && all[j] == partitions[j - 1]);
        }
    }
}

proof fn lemma_remove_address(partitions: Seq<Partition>, at: int)
    requires
        sorted_addresses(partitions),
        0 <= at < partitions.len(),
    ensures
        addresses(partitions.remove(at)) == addresses(partitions).remove(partitions[at].addr@),
        sorted_addresses(partitions.remove(at)),
{
    lemma_sorted_is_distinct(partitions);
    let rest = partitions.remove(at);
    let gone = partitions[at].addr@;
    assert forall|i: int| 0 <= i < rest.len() implies #[trigger] rest[i] == partitions[if i < at {
        i
    } else {
        i + 1
    }] by {}
    assert forall|a: Seq<char>| addresses(rest).contains(a) <==> addresses(partitions).remove(
        gone,
    ).contains(a) by {
        if addresses(rest).contains(a) {
            let i = choose|i: int| 0 <= i < rest.len() && (#[trigger] rest[i]).addr@ == a;
            let k = if i < at {
                i
            } else {
                i + 1
            };
            assert(rest[i] == partitions[k]);
            assert(partitions[k].addr@ != partitions[at].addr@);
        }
        if addresses(partitions).contains(a) && a != gone {
            let k = choose|k: int|
                0 <= k < partitions.len() && (#[trigger] partitions[k]).addr@ == a;
            let i = if k < at {
                k
            } else {
                k - 1
            };
            assert(rest[i] == partitions[k]);
        }
    }
    assert(addresses(rest) =~= addresses(partitions).remove(gone));
    assert forall|i: int, j: int| 0 <= i < j < rest.len() implies comes_before(
        (#[trigger] rest[i]).addr@,
        (#[trigger] rest[j]).addr@,
    ) by {
        let a = if i < at {
            i
        } else {
            i + 1
        };
        let b = if j < at {
            j
        } else {
            j + 1
        };
        assert(rest[i] == partitions[a]);
        assert(rest[j] == partitions[b]);
    }
}

proof fn lemma_update_address(partitions: Seq<Partition>, at: int, p: Partition)
    requires
        sorted_addresses(partitions),
        0 <= at < partitions.len(),
        partitions[at].addr@ == p.addr@,
    ensures
        addresses(partitions.update(at, p)) == addresses(partitions),
        sorted_addresses(partitions.update(at, p)),
{
    let all = partitions.update(at, p);
    assert forall|a: Seq<char>| addresses(all).contains(a) <==> addresses(partitions).contains(
        a,
    ) by {
        if addresses(all).contains(a) {
            let i = choose|i: int| 0 <= i < all.len() && (#[trigger] all[i]).addr@ == a;
            assert(partitions[i].addr@ == a);
        }
        if addresses(partitions).contains(a) {
            let i = choose|i: int|
                0 <= i < partitions.len() && (#[trigger] partitions[i]).addr@ == a;
            assert(all[i].addr@ == a);
        }
    }
    assert(addresses(all) =~= addresses(partitions));
    assert forall|i: int, j: int| 0 <= i < j < all.len() implies comes_before(
        (#[trigger] all[i]).addr@,
        (#[trigger] all[j]).addr@,
    ) by {
        assert(all[i].addr@ == partitions[i].addr@);
        assert(all[j].addr@ == partitions[j].addr@);
    }
}

proof fn lemma_next_address(partitions: Seq<Partition>, i: int)
    requires
        0 <= i < partitions.len(),
    ensures
        addresses(partitions.take(i + 1)) == addresses(partitions.take(i)).insert(
            partitions[i].addr@,
        ),
{
    let before = partitions.take(i);
    let after = partitions.take(i + 1);
    assert forall|a: Seq<char>| addresses(after).contains(a) <==> addresses(before).insert(
        partitions[i].addr@,
    ).contains(a) by {
        if addresses(after).contains(a) {
            let k = choose|k: int| 0 <= k < after.len() && (#[trigger] after[k]).addr@ == a;
            if k < i {
                assert(before[k] == after[k]);
            }
        }
        if addresses(before).contains(a) {
            let k = choose|k: int| 0 <= k < before.len() && (#[trigger] before[k]).addr@ == a;
            assert(after[k] == before[k]);
        }
        if a == partitions[i].addr@ {
            assert(after[i] == partitions[i]);
        }
    }
    assert(addresses(after) =~= addresses(before).insert(partitions[i].addr@));
}

/// What a member that joins does to the positions: its own are held too.
proof fn lemma_join(members: Set<Seq<char>>, replicas: int, node: Seq<char>)
    ensures
        forall|p: u64| #[trigger]
            points_of(members.insert(node), replicas).contains(p) <==> points_of(
                members,
                replicas,
            ).contains(p) || is_position(p, node, replicas),
        forall|p: u64, x: Seq<char>| #[trigger]
            held_by(members.insert(node), replicas, p, x) <==> held_by(members, replicas, p, x)
                || (x == node && is_position(p, node, replicas)),
{
    let all = members.insert(node);
    assert forall|p: u64| #[trigger]
        points_of(all, replicas).contains(p) <==> points_of(members, replicas).contains(p)
            || is_position(p, node, replicas) by {
        if points_of(all, replicas).contains(p) {
            let x = choose|x: Seq<char>| held_by(all, replicas, p, x);
            if x != node {
                assert(held_by(members, replicas, p, x));
            }
        }
        if points_of(members, replicas).contains(p) {
            let x = choose|x: Seq<char>| held_by(members, replicas, p, x);
            assert(held_by(all, replicas, p, x));
        }
        if is_position(p, node, replicas) {
            assert(held_by(all, replicas, p, node));
        }
    }
}

/// What a ring holds once a new member was added to it.
proof fn lemma_added(
    before: HashRing<String>,
    after: HashRing<String>,
    members: Set<Seq<char>>,
    node: Seq<char>,
)
    requires
        mirrors(before, members, ring_replicas(before)),
        !members.contains(node),
        node_added(before, after, node),
    ensures
        holds_points(after, members.insert(node), ring_replicas(before)),
        counts_alone(after, members.insert(node), ring_replicas(before)),
{
    let replicas = ring_replicas(before);
    let all = members.insert(node);
    lemma_join(members, replicas, node);
    assert forall|p: u64, a: Seq<char>|
        #[trigger] held_by(all, replicas, p, a) && alone(all, replicas, a) implies ring_points(
        after,
    ).count(p) == 1 by {
        if a == node {
            if ring_points(before).count(p) > 0 {
                let other = choose|other: Seq<char>| held_by(members, replicas, p, other);
                assert(held_by(all, replicas, p, other));
            }
        } else {
            assert(held_by(members, replicas, p, a));
            assert(alone(members, replicas, a)) by {
                assert forall|q: u64, other: Seq<char>|
                    #[trigger] held_by(members, replicas, q, other) && is_position(
                        q,
                        a,
                        replicas,
                    ) implies other == a by {
                    assert(held_by(all, replicas, q, other));
                }
            }
            if is_position(p, node, replicas) {
                assert(held_by(all, replicas, p, node));
            }
        }
    }
}

/// A ring that mirrors the members still does so once a member that shares
/// none of its positions was added to it.
proof fn lemma_added_alone(
    before: HashRing<String>,
    after: HashRing<String>,
    members: Set<Seq<char>>,
    node: Seq<char>,
)
    requires
        mirrors(before, members, ring_replicas(before)),
        !members.contains(node),
        alone(members.insert(node), ring_replicas(before), node),
        node_added(before, after, node),
    ensures
        mirrors(after, members.insert(node), ring_replicas(before)),
{
    let replicas = ring_replicas(before);
    let all = members.insert(node);
    lemma_added(before, after, members, node);
    lemma_join(members, replicas, node);
    assert forall|p: u64| points_of(all, replicas).contains(p) implies owns(
        all,
        replicas,
        p,
        #[trigger] ring_owners(after)[p],
    ) by {
        let owner = ring_owners(after)[p];
        if is_position(p, node, replicas) {
            assert(held_by(all, replicas, p, node));
        } else {
            assert(points_of(members, replicas).contains(p));
            assert(owns(members, replicas, p, ring_owners(before)[p]));
            assert forall|other: Seq<char>| #[trigger]
                held_by(all, replicas, p, other) implies other == owner || comes_before(
                other,
                owner,
            ) by {
                assert(held_by(members, replicas, p, other));
            }
        }
    }
}

/// A ring that mirrors the members still does so once a member that comes
/// after all of them in the order of addresses was added to it.
proof fn lemma_added_last(
    before: HashRing<String>,
    after: HashRing<String>,
    members: Set<Seq<char>>,
    node: Seq<char>,
)
    requires
        mirrors(before, members, ring_replicas(before)),
        forall|other: Seq<char>| #[trigger] members.contains(other) ==> comes_before(other, node),
        node_added(before, after, node),
    ensures
        mirrors(after, members.insert(node), ring_replicas(before)),
{
    let replicas = ring_replicas(before);
    let all = members.insert(node);
    lemma_order_irreflexive(node);
    lemma_added(before, after, members, node);
    lemma_join(members, replicas, node);
    assert forall|p: u64| points_of(all, replicas).contains(p) implies owns(
        all,
        replicas,
        p,
        #[trigger] ring_owners(after)[p],
    ) by {
        let owner = ring_owners(after)[p];
        if is_position(p, node, replicas) {
            assert(held_by(all, replicas, p, node));
            assert forall|other: Seq<char>| #[trigger]
                held_by(all, replicas, p, other) implies other == node || comes_before(
                other,
                node,
            ) by {
                if other != node {
                    assert(members.contains(other));
                }
            }
        } else {
            assert(points_of(members, replicas).contains(p));
            assert(owns(members, replicas, p, ring_owners(before)[p]));
            assert forall|other: Seq<char>| #[trigger]
                held_by(all, replicas, p, other) implies other == owner || comes_before(
                other,
                owner,
            ) by {
                assert(held_by(members, replicas, p, other));
            }
        }
    }
}

/// A ring that mirrors the members still does so once a member that shares
/// none of its positions was removed from it.
proof fn lemma_removed_alone(
    before: HashRing<String>,
    after: HashRing<String>,
    members: Set<Seq<char>>,
    node: Seq<char>,
)
    requires
        mirrors(before, members, ring_replicas(before)),
        members.contains(node),
        alone(members, ring_replicas(before), node),
        node_removed(before, after, node),
    ensures
        mirrors(after, members.remove(node), ring_replicas(before)),
{
    let replicas = ring_replicas(before);
    let rest = members.remove(node);
    assert forall|p: u64, x: Seq<char>| #[trigger]
        held_by(rest, replicas, p, x) <==> held_by(members, replicas, p, x) && x != node by {}
    assert forall|p: u64| #[trigger]
        points_of(rest, replicas).contains(p) <==> points_of(members, replicas).contains(p)
            && !is_position(p, node, replicas) by {
        if points_of(rest, replicas).contains(p) {
            let x = choose|x: Seq<char>| held_by(rest, replicas, p, x);
            assert(held_by(members, replicas, p, x));
        }
        if points_of(members, replicas).contains(p) && !is_position(p, node, replicas) {
            let x = choose|x: Seq<char>| held_by(members, replicas, p, x);
            assert(held_by(rest, replicas, p, x));
        }
    }
    assert forall|p: u64|
        #[trigger] ring_points(after).count(p) > 0 <==> points_of(rest, replicas).contains(
            p,
        ) by {
        if is_position(p, node, replicas) {
            assert(held_by(members, replicas, p, node));
        }
    }
    assert forall|p: u64| points_of(rest, replicas).contains(p) implies owns(
        rest,
        replicas,
        p,
        #[trigger] ring_owners(after)[p],
    ) by {
        let owner = ring_owners(before)[p];
        assert(owns(members, replicas, p, owner));
        assert(held_by(members, replicas, p, owner));
        assert forall|other: Seq<char>| #[trigger]
            held_by(rest, replicas, p, other) implies other == owner || comes_before(
            other,
            owner,
        ) by {
            assert(held_by(members, replicas, p, other));
        }
    }
    assert forall|p: u64, a: Seq<char>|
        #[trigger] held_by(rest, replicas, p, a) && alone(rest, replicas, a) implies ring_points(
        after,
    ).count(p) == 1 by {
        assert(held_by(members, replicas, p, a));
        assert(alone(members, replicas, a)) by {
            assert forall|q: u64, other: Seq<char>|
                #[trigger] held_by(members, replicas, q, other) && is_position(
                    q,
                    a,
                    replicas,
                ) implies other == a by {
                if other == node {
                    assert(held_by(members, replicas, q, a));
                } else {
                    assert(held_by(rest, replicas, q, other));
                }
            }
        }
    }
}

/// A ring that mirrors the members has decided every tie among them.
proof fn lemma_mirror_decides(ring: HashRing<String>, members: Set<Seq<char>>, replicas: int)
    requires
        mirrors(ring, members, replicas),
    ensures
        ties_decided(members, replicas),
{
    assert forall|p: u64| #[trigger] points_of(members, replicas).contains(p) implies owns(
        members,
        replicas,
        p,
        owner_of(members, replicas, p),
    ) by {
        assert(owns(members, replicas, p, ring_owners(ring)[p]));
    }
}

/// The positions of a node, in the order of their indices.
pub fn positions_of(addr: &str, replicas: u16) -> (v: Vec<u64>)
    ensures
        v.len() == replicas,
        forall|j: int| 0 <= j < replicas ==> v@[j] == #[trigger] position(addr@, j),
{
    let mut v: Vec<u64> = Vec::new();
    let mut j: u16 = 0;
    while j < replicas
        invariant
            j <= replicas,
            v.len() == j,
            forall|k: int| 0 <= k < j ==> v@[k] == #[trigger] position(addr@, k),
        decreases replicas - j,
    {
        let mut text = addr.to_owned();
        text.append(":");
        write_number(&mut text, j);
        assert(text@ =~= label(addr@, j as int));
        v.push(ring_position(text.as_str()));
        j = j + 1;
    }
    v
}

/// Whether `x` stands in `v` at or after the index `from`.
pub fn holds_number(v: &Vec<u64>, from: usize, x: u64) -> (found: bool)
    requires
        from <= v.len(),
    ensures
        found == exists|j: int| from <= j < v.len() && v@[j] == x,
{
    let mut j: usize = from;
    while j < v.len()
        invariant
            from <= j <= v.len(),
            forall|k: int| from <= k < j ==> v@[k] != x,
        decreases v.len() - j,
    {
        if v[j] == x {
            return true;
        }
        j = j + 1;
    }
    false
}

/// Whether no number stands twice in `v`.
pub fn all_different(v: &Vec<u64>) -> (distinct: bool)
    ensures
        distinct == forall|i: int, j: int| 0 <= i < j < v.len() ==> v@[i] != v@[j],
{
    let mut i: usize = 0;
    while i < v.len()
        invariant
            i <= v.len(),
            forall|a: int, b: int| 0 <= a < i && a < b < v.len() ==> v@[a] != v@[b],
        decreases v.len() - i,
    {
        if holds_number(v, i + 1, v[i]) {
            return false;
        }
        i = i + 1;
    }
    true
}

/// Whether some number stands in both lists.
pub fn share_number(a: &Vec<u64>, b: &Vec<u64>) -> (shared: bool)
    ensures
        shared == exists|i: int, j: int| 0 <= i < a.len() && 0 <= j < b.len() && a@[i] == b@[j],
{
    let mut i: usize = 0;
    while i < a.len()
        invariant
            i <= a.len(),
            forall|x: int, y: int| 0 <= x < i && 0 <= y < b.len() ==> a@[x] != b@[y],
        decreases a.len() - i,
    {
        if holds_number(b, 0, a[i]) {
            return true;
        }
        i = i + 1;
    }
    false
}


/// The registry of live partitions together with the ring over their
/// addresses. Every change of membership is applied to both.
pub struct Router {
    ring: HashRing<String>,
    registry: Vec<Partition>,
    replicas: u16,
}

impl Router {
    /// The registered partitions, in the order of their addresses.
    pub closed spec fn partitions(&self) -> Seq<Partition> {
        self.registry@
    }

    /// The number of positions that each member holds on the ring.
    pub closed spec fn replicas(&self) -> int {
        self.replicas as int
    }

    /// The addresses of the registered partitions.
    pub open spec fn members(&self) -> Set<Seq<char>> {
        addresses(self.partitions())
    }

    /// Registry and ring agree: every member is recorded once, and the ring
    /// holds the members' positions and no others, each on record for the
    /// member that owns it.
    pub closed spec fn wf(&self) -> bool {
        &&& sorted_addresses(self.registry@)
        &&& ring_replicas(self.ring) == self.replicas
        &&& mirrors(self.ring, addresses(self.registry@), self.replicas as int)
    }

    /// What `wf` says of the registry alone.
    pub proof fn lemma_wf(&self)
        requires
            self.wf(),
        ensures
            sorted_addresses(self.partitions()),
            distinct_addresses(self.partitions()),
            ties_decided(self.members(), self.replicas()),
    {
        lemma_sorted_is_distinct(self.registry@);
        lemma_mirror_decides(self.ring, addresses(self.registry@), self.replicas as int);
    }

    /// The member found for a key depends on the set of members and on the
    /// number of replicas alone: neither on the order in which the members
    /// joined, nor on what was looked up or who came and went before.
    pub proof fn lemma_members_decide(&self, other: &Router, key: Seq<char>)
        requires
            self.members() == other.members(),
            self.replicas() == other.replicas(),
        ensures
            route(self.members(), self.replicas(), key) == route(
                other.members(),
                other.replicas(),
                key,
            ),
    {
    }

    /// A routing service without members, whose ring will give `replicas`
    /// positions to each node.
    pub fn new(replicas: u16) -> (router: Router)
        ensures
            router.wf(),
            router.partitions() == Seq::<Partition>::empty(),
            router.replicas() == replicas,
    {
        let router = Router { ring: ring_new(replicas), registry: Vec::new(), replicas };
        proof {
            let members = addresses(router.registry@);
            assert forall|p: u64| !points_of(members, replicas as int).contains(p) by {
                if points_of(members, replicas as int).contains(p) {
                    let x = choose|x: Seq<char>| held_by(members, replicas as int, p, x);
                    assert(members.contains(x));
                }
            }
        }
        router
    }

    /// The number of registered partitions.
    pub fn len(&self) -> (n: usize)
        ensures
            n == self.partitions().len(),
    {
        self.registry.len()
    }

    /// Makes the ring anew from the registry: the members are added to an
    /// empty ring in the order of their addresses, so that a position held
    /// by several members is on record for the last of them in that order.
    /// Nothing changes for any key.
    pub fn rebuild(&mut self)
        requires
            old(self).wf(),
        ensures
            final(self).wf(),
            final(self).partitions() == old(self).partitions(),
            final(self).replicas() == old(self).replicas(),
    {
        self.renew();
    }

    fn renew(&mut self)
        requires
            sorted_addresses(old(self).registry@),
        ensures
            final(self).wf(),
            final(self).registry@ == old(self).registry@,
            final(self).replicas == old(self).replicas,
    {
        let ghost replicas = self.replicas as int;
        let mut ring = ring_new(self.replicas);
        let mut i: usize = 0;
        proof {
            let members = addresses(self.registry@.take(0));
            assert forall|p: u64| !points_of(members, replicas).contains(p) by {
                if points_of(members, replicas).contains(p) {
                    let x = choose|x: Seq<char>| held_by(members, replicas, p, x);
                    assert(members.contains(x));
                }
            }
        }
        while i < self.registry.len()
            invariant
                i <= self.registry.len(),
                replicas == self.replicas as int,
                sorted_addresses(self.registry@),
                ring_replicas(ring) == replicas,
                mirrors(ring, addresses(self.registry@.take(i as int)), replicas),
            decreases self.registry.len() - i,
        {
            let ghost before = ring;
            let ghost members = addresses(self.registry@.take(i as int));
            let ghost node = self.registry@[i as int].addr@;
            ring_add(&mut ring, &self.registry[i].addr);
            proof {
                lemma_next_address(self.registry@, i as int);
                assert forall|other: Seq<char>| #[trigger]
                    members.contains(other) implies comes_before(other, node) by {
                    let k = choose|k: int|
                        0 <= k < i && (#[trigger] self.registry@.take(i as int)[k]).addr@
                            == other;
                    assert(self.registry@.take(i as int)[k] == self.registry@[k]);
                    assert(comes_before(
                        self.registry@[k].addr@,
                        self.registry@[i as int].addr@,
                    ));
                }
                lemma_added_last(before, ring, members, node);
            }
            i = i + 1;
        }
        assert(self.registry@.take(i as int) =~= self.registry@);
        self.ring = ring;
    }

    /// Whether the member at an index shares none of its positions.
    fn stands_alone(&self, at: usize) -> (is_alone: bool)
        requires
            sorted_addresses(self.registry@),
            at < self.registry.len(),
        ensures
            is_alone == alone(
                addresses(self.registry@),
                self.replicas as int,
                self.registry@[at as int].addr@,
            ),
    {
        let ghost members = addresses(self.registry@);
        let ghost replicas = self.replicas as int;
        let ghost node = self.registry@[at as int].addr@;
        proof {
            lemma_sorted_is_distinct(self.registry@);
        }
        let mine = positions_of(self.registry[at].addr.as_str(), self.replicas);
        if !all_different(&mine) {
            proof {
                if distinct_positions(node, replicas) {
                    let (i, j) = choose|i: int, j: int|
                        0 <= i < j < mine.len() && mine@[i] == mine@[j];
                    assert(position(node, i) != position(node, j));
                }
            }
            return false;
        }
        assert(distinct_positions(node, replicas)) by {
            assert forall|i: int, j: int|
                0 <= i < replicas && 0 <= j < replicas && i != j implies #[trigger] position(
                node,
                i,
            ) != #[trigger] position(node, j) by {
                if i < j {
                    assert(mine@[i] != mine@[j]);
                } else {
                    assert(mine@[j] != mine@[i]);
                }
            }
        }
        let mut k: usize = 0;
        while k < self.registry.len()
            invariant
                k <= self.registry.len(),
                at < self.registry.len(),
                mine.len() == replicas,
                replicas == self.replicas as int,
                members == addresses(self.registry@),
                node == self.registry@[at as int].addr@,
                distinct_addresses(self.registry@),
                forall|j: int| 0 <= j < replicas ==> mine@[j] == #[trigger] position(node, j),
                forall|m: int, i: int, j: int|
                    0 <= m < k && m != at && 0 <= i < replicas && 0 <= j < replicas
                        ==> #[trigger] position(self.registry@[m].addr@, i) != #[trigger] position(
                        node,
                        j,
                    ),
            decreases self.registry.len() - k,
        {
            if k != at {
                let theirs = positions_of(self.registry[k].addr.as_str(), self.replicas);
                if share_number(&theirs, &mine) {
                    proof {
                        let (i, j) = choose|i: int, j: int|
                            0 <= i < theirs.len() && 0 <= j < mine.len() && theirs@[i]
                                == mine@[j];
                        let other = self.registry@[k as int].addr@;
                        let p = position(other, i);
                        assert(p == position(node, j));
                        assert(members.contains(other));
                        assert(held_by(members, replicas, p, other));
                        assert(is_position(p, node, replicas));
                        assert(other != node);
                    }
                    return false;
                }
                proof {
                    let other = self.registry@[k as int].addr@;
                    assert forall|i: int, j: int|
                        0 <= i < replicas && 0 <= j < replicas implies #[trigger] position(
                        other,
                        i,
                    ) != #[trigger] position(node, j) by {
                        assert(theirs@[i] == position(other, i));
                        assert(mine@[j] == position(node, j));
                    }
                }
            }
            k = k + 1;
        }
        proof {
            assert forall|p: u64, other: Seq<char>|
                #[trigger] held_by(members, replicas, p, other) && is_position(
                    p,
                    node,
                    replicas,
                ) implies other == node by {
                let m = choose|m: int|
                    0 <= m < self.registry@.len() && (#[trigger] self.registry@[m]).addr@
                        == other;
                if m != at {
                    let i = choose|i: int| 0 <= i < replicas && #[trigger] position(other, i) == p;
                    let j = choose|j: int| 0 <= j < replicas && #[trigger] position(node, j) == p;
                    assert(position(self.registry@[m].addr@, i) != position(node, j));
                }
            }
        }
        true
    }

    fn find(&self, addr: &str) -> (at: usize)
        ensures
            at == address_index(self.partitions(), addr@),
            at <= self.partitions().len(),
    {
        let mut i: usize = 0;
        proof {
            lemma_address_index(self.registry@, addr@);
            assert(self.registry@.skip(0) =~= self.registry@);
        }
        while i < self.registry.len()
            invariant
                i <= self.registry.len(),
                address_index(self.registry@, addr@) == i + address_index(
                    self.registry@.skip(i as int),
                    addr@,
                ),
            decreases self.registry.len() - i,
        {
            let ghost rest = self.registry@.skip(i as int);
            assert(rest[0] == self.registry@[i as int]);
            if same_text(self.registry[i].addr.as_str(), addr) {
                return i;
            }
            assert(rest.drop_first() =~= self.registry@.skip(i + 1));
            i = i + 1;
        }
        assert(self.registry@.skip(i as int).len() == 0);
        i
    }

    fn place(&self, addr: &str) -> (at: usize)
        ensures
            at == insertion_index(self.partitions(), addr@),
            at <= self.partitions().len(),
    {
        let mut i: usize = 0;
        proof {
            lemma_insertion_index(self.registry@, addr@);
            assert(self.registry@.skip(0) =~= self.registry@);
        }
        while i < self.registry.len()
            invariant
                i <= self.registry.len(),
                insertion_index(self.registry@, addr@) == i + insertion_index(
                    self.registry@.skip(i as int),
                    addr@,
                ),
            decreases self.registry.len() - i,
        {
            let ghost rest = self.registry@.skip(i as int);
            assert(rest[0] == self.registry@[i as int]);
            if !precedes(self.registry[i].addr.as_str(), addr) {
                return i;
            }
            assert(rest.drop_first() =~= self.registry@.skip(i + 1));
            i = i + 1;
        }
        assert(self.registry@.skip(i as int).len() == 0);
        i
    }

    /// The record of the partition registered under an address, if any.
    pub fn partition(&self, addr: &str) -> (found: Option<&Partition>)
        ensures
            found is Some <==> self.members().contains(addr@),
            found matches Some(p) ==> p.addr@ == addr@ && *p == self.partitions()[address_index(
                self.partitions(),
                addr@,
            )],
    {
        proof {
            lemma_address_index(self.registry@, addr@);
        }
        let at = self.find(addr);
        if at < self.registry.len() {
            Some(&self.registry[at])
        } else {
            None
        }
    }

    /// The partition that a key belongs to: the member found on the ring
    /// for the key, or none while no member holds a position.
    pub fn lookup(&self, key: &str) -> (found: Option<&Partition>)
        requires
            self.wf(),
        ensures
            match route(self.members(), self.replicas(), key@) {
                Some(addr) => found matches Some(p) && p.addr@ == addr && *p
                    == self.partitions()[address_index(self.partitions(), addr)],
                None => found is None,
            },
    {
        let ghost members = self.members();
        let ghost replicas = self.replicas as int;
        let ghost points = points_of(members, replicas);
        proof {
            assert(ring_points(self.ring).dom() =~= points);
            if ring_points(self.ring).len() > 0 {
                vstd::multiset::axiom_choose_count(ring_points(self.ring));
                let p = ring_points(self.ring).choose();
                assert(points.contains(p));
            }
            if exists|p: u64| points.contains(p) {
                let p = choose|p: u64| points.contains(p);
                assert(ring_points(self.ring).count(p) > 0);
                vstd::multiset::axiom_count_le_len(ring_points(self.ring), p);
                lemma_successor(points, ring_hash(key@));
            }
        }
        match ring_get(&self.ring, key.to_owned()) {
            None => None,
            Some(addr) => {
                proof {
                    let s = successor(points, ring_hash(key@));
                    assert(owns(members, replicas, s, ring_owners(self.ring)[s]));
                    lemma_mirror_decides(self.ring, members, replicas);
                    lemma_one_owner(
                        members,
                        replicas,
                        s,
                        ring_owners(self.ring)[s],
                        owner_of(members, replicas, s),
                    );
                }
                self.partition(addr.as_str())
            },
        }
    }

    /// Registers a partition. A new address joins the registry and the ring
    /// together: it is added to the ring as it is where it shares none of
    /// its positions, and else the ring is made anew, so that the tie goes
    /// to the last address in order. An address that is registered already
    /// has its record replaced, and the record that was there is handed
    /// back.
    pub fn register(&mut self, partition: Partition) -> (replaced: Option<Partition>)
        requires
            old(self).wf(),
        ensures
            final(self).wf(),
            final(self).replicas() == old(self).replicas(),
            final(self).partitions() == registered(old(self).partitions(), partition),
            final(self).members() == old(self).members().insert(partition.addr@),
            replaced == replaced_by(old(self).partitions(), partition),
    {
        let ghost before = self.registry@;
        let ghost addr = partition.addr@;
        proof {
            lemma_address_index(before, addr);
            lemma_insertion_index(before, addr);
            lemma_sorted_is_distinct(before);
        }
        let at = self.place(partition.addr.as_str());
        if at < self.registry.len() && same_text(
            self.registry[at].addr.as_str(),
            partition.addr.as_str(),
        ) {
            proof {
                lemma_update_address(before, at as int, partition);
                assert(addresses(before).insert(addr) =~= addresses(before));
            }
            let record = self.registry[at].duplicate();
            self.registry.set(at, partition);
            return Some(record);
        }
        proof {
            lemma_order_irreflexive(addr);
            if at < before.len() {
                lemma_order_total(before[at as int].addr@, addr);
            }
            if addresses(before).contains(addr) {
                let k = address_index(before, addr);
                if k < at {
                    assert(comes_before(before[k].addr@, addr));
                } else if k > at {
                    assert(comes_before(before[at as int].addr@, before[k].addr@));
                    lemma_order_transitive(addr, before[at as int].addr@, addr);
                }
            }
            lemma_insert_address(before, at as int, partition);
        }
        self.registry.insert(at, partition);
        if self.stands_alone(at) {
            let ghost ring = self.ring;
            ring_add(&mut self.ring, &self.registry[at].addr);
            proof {
                lemma_added_alone(ring, self.ring, addresses(before), addr);
            }
        } else {
            self.renew();
        }
        None
    }

    /// Takes the partition with the given address out of the registry and
    /// the ring together: it is removed from the ring as it is where it
    /// shares none of its positions, and else the ring is made anew. Nothing
    /// changes when no such partition is registered.
    pub fn unregister(&mut self, addr: &str) -> (removed: bool)
        requires
            old(self).wf(),
        ensures
            final(self).wf(),
            final(self).replicas() == old(self).replicas(),
            removed == old(self).members().contains(addr@),
            final(self).partitions() == unregistered(old(self).partitions(), addr@),
            final(self).members() == old(self).members().remove(addr@),
            others_keep_their_keys(
                old(self).members(),
                final(self).members(),
                old(self).replicas(),
                addr@,
            ),
    {
        let ghost members = self.members();
        proof {
            lemma_address_index(self.registry@, addr@);
            lemma_mirror_decides(self.ring, members, self.replicas as int);
            assert forall|key: Seq<char>|
                #[trigger] route(members, self.replicas(), key) != Some(addr@) implies route(
                members.remove(addr@),
                self.replicas(),
                key,
            ) == route(members, self.replicas(), key) by {
                lemma_removal_keeps_others(members, self.replicas(), addr@, key);
            }
        }
        let at = self.find(addr);
        if at >= self.registry.len() {
            assert(members.remove(addr@) =~= members);
            return false;
        }
        proof {
            lemma_remove_address(self.registry@, at as int);
            lemma_sorted_is_distinct(self.registry@);
        }
        if self.stands_alone(at) {
            let ghost ring = self.ring;
            let ghost replicas = self.replicas as int;
            let gone = self.registry.remove(at);
            proof {
                assert forall|i: int| 0 <= i < replicas implies ring_owners(
                    self.ring,
                ).dom().contains(#[trigger] position(addr@, i)) && ring_points(self.ring).count(
                    position(addr@, i),
                ) >= 1 by {
                    let p = position(addr@, i);
                    assert(held_by(members, replicas, p, addr@));
                    assert(points_of(members, replicas).contains(p));
                }
            }
            ring_remove(&mut self.ring, &gone.addr);
            proof {
                lemma_removed_alone(ring, self.ring, members, addr@);
            }
        } else {
            self.registry.remove(at);
            self.renew();
        }
        true
    }

    /// The registered partitions, in the order of their addresses.
    pub fn list(&self) -> (partitions: Vec<Partition>)
        ensures
            partitions@ == self.partitions(),
    {
        let mut partitions: Vec<Partition> = Vec::new();
        let mut i: usize = 0;
        while i < self.registry.len()
            invariant
                i <= self.registry.len(),
                partitions@ == self.registry@.take(i as int),
            decreases self.registry.len() - i,
        {
            partitions.push(self.registry[i].duplicate());
            i = i + 1;
            assert(partitions@ =~= self.registry@.take(i as int));
        }
        assert(self.registry@.take(i as int) =~= self.registry@);
        partitions
    }
}

} // verus!
