//! The partitions known to the master: what a registered node is, and how
//! the list of them is shown.

use crate::text::{comes_before, lemma_order_irreflexive};
use vstd::prelude::*;
use vstd::string::*;

verus! {

/// A registered cache node. Its address is its identity: two records with
/// the same address stand for the same node, whatever their other fields.
#[derive(Clone)]
pub struct Partition {
    /// The identifier given to the node when it registered.
    pub id: String,
    /// The peer address seen when the node's connection was accepted.
    pub addr: String,
    /// The handle of the connection that carries all traffic to the node.
    pub conn: u64,
    /// The time of registration, as text.
    pub time_joined: String,
}

/// How a text is shown inside quotes, with the characters escaped that
/// `Debug` escapes.
pub uninterp spec fn quoted_text(s: Seq<char>) -> Seq<char>;

/// Shows a text as `Debug` does for `str`: in double quotes, with escapes.
#[verifier::external_body]
fn quoted(s: &str) -> (q: String)
    ensures
        q@ == quoted_text(s@),
{
    format!("{:?}", s)
}

/// How one partition is shown in a listing.
pub open spec fn partition_text(p: Partition) -> Seq<char> {
    "Partition { id: "@ + p.id@ + ", addr: "@ + quoted_text(p.addr@) + ", time_joined: "@
        + quoted_text(p.time_joined@) + " }"@
}

/// The partitions of a listing, separated by commas.
pub open spec fn joined_text(partitions: Seq<Partition>) -> Seq<char>
    decreases partitions.len(),
{
    if partitions.len() == 0 {
        Seq::empty()
    } else if partitions.len() == 1 {
        partition_text(partitions[0])
    } else {
        joined_text(partitions.drop_last()) + ", "@ + partition_text(partitions.last())
    }
}

/// A listing of partitions: in square brackets, in the order given.
pub open spec fn partitions_text(partitions: Seq<Partition>) -> Seq<char> {
    "["@ + joined_text(partitions) + "]"@
}

/// The addresses of the given partitions.
pub open spec fn addresses(partitions: Seq<Partition>) -> Set<Seq<char>> {
    Set::new(
        |a: Seq<char>|
            exists|i: int| 0 <= i < partitions.len() && (#[trigger] partitions[i]).addr@ == a,
    )
}

/// No two of the given partitions share an address.
pub open spec fn distinct_addresses(partitions: Seq<Partition>) -> bool {
    forall|i: int, j: int|
        0 <= i < partitions.len() && 0 <= j < partitions.len() && i != j ==> (
        #[trigger] partitions[i]).addr@ != (#[trigger] partitions[j]).addr@
}

/// The partitions stand in the order of their addresses, each address once.
pub open spec fn sorted_addresses(partitions: Seq<Partition>) -> bool {
    forall|i: int, j: int|
        0 <= i < j < partitions.len() ==> comes_before(
            (#[trigger] partitions[i]).addr@,
            (#[trigger] partitions[j]).addr@,
        )
}

/// Partitions in the order of their addresses have different addresses.
pub proof fn lemma_sorted_is_distinct(partitions: Seq<Partition>)
    requires
        sorted_addresses(partitions),
    ensures
        distinct_addresses(partitions),
{
    assert forall|i: int, j: int|
        0 <= i < partitions.len() && 0 <= j < partitions.len() && i != j implies
        (#[trigger] partitions[i]).addr@ != (#[trigger] partitions[j]).addr@ by {
        lemma_order_irreflexive(partitions[i].addr@);
        if i < j {
            assert(comes_before(partitions[i].addr@, partitions[j].addr@));
        } else {
            assert(comes_before(partitions[j].addr@, partitions[i].addr@));
        }
    }
}

/// The number of partitions at the front whose addresses come before the
/// given one: the place of that address in the order.
pub open spec fn insertion_index(partitions: Seq<Partition>, addr: Seq<char>) -> int
    decreases partitions.len(),
{
    if partitions.len() == 0 {
        0
    } else if comes_before(partitions[0].addr@, addr) {
        1 + insertion_index(partitions.drop_first(), addr)
    } else {
        0
    }
}

/// Where an address belongs: every partition before that index comes before
/// the address, and the partition at the index, if any, does not.
pub proof fn lemma_insertion_index(partitions: Seq<Partition>, addr: Seq<char>)
    ensures
        0 <= insertion_index(partitions, addr) <= partitions.len(),
        forall|j: int|
            0 <= j < insertion_index(partitions, addr) ==> comes_before(
                (#[trigger] partitions[j]).addr@,
                addr,
            ),
        insertion_index(partitions, addr) < partitions.len() ==> !comes_before(
            partitions[insertion_index(partitions, addr)].addr@,
            addr,
        ),
    decreases partitions.len(),
{
    if partitions.len() > 0 && comes_before(partitions[0].addr@, addr) {
        let rest = partitions.drop_first();
        lemma_insertion_index(rest, addr);
        assert forall|j: int| 0 <= j < insertion_index(partitions, addr) implies comes_before(
            (#[trigger] partitions[j]).addr@,
            addr,
        ) by {
            if j > 0 {
                assert(partitions[j] == rest[j - 1]);
            }
        }
        if insertion_index(rest, addr) < rest.len() {
            assert(partitions[insertion_index(rest, addr) + 1] == rest[insertion_index(
                rest,
                addr,
            )]);
        }
    }
}

/// The index of the first partition with the given address, or the number
/// of partitions when none has it.
pub open spec fn address_index(partitions: Seq<Partition>, addr: Seq<char>) -> int
    decreases partitions.len(),
{
    if partitions.len() == 0 {
        0
    } else if partitions[0].addr@ == addr {
        0
    } else {
        1 + address_index(partitions.drop_first(), addr)
    }
}

/// Where an address stands: no partition before that index has it, and the
/// index is within the list exactly when the address is one of the list's.
pub proof fn lemma_address_index(partitions: Seq<Partition>, addr: Seq<char>)
    ensures
        0 <= address_index(partitions, addr) <= partitions.len(),
        forall|j: int|
            0 <= j < address_index(partitions, addr) ==> (#[trigger] partitions[j]).addr@ != addr,
        address_index(partitions, addr) < partitions.len() ==> partitions[address_index(
            partitions,
            addr,
        )].addr@ == addr,
        addresses(partitions).contains(addr) <==> address_index(partitions, addr)
            < partitions.len(),
    decreases partitions.len(),
{
    if partitions.len() > 0 && partitions[0].addr@ != addr {
        let rest = partitions.drop_first();
        lemma_address_index(rest, addr);
        assert forall|j: int| 0 <= j < address_index(partitions, addr) implies
            (#[trigger] partitions[j]).addr@ != addr by {
            if j > 0 {
                assert(partitions[j] == rest[j - 1]);
            }
        }
        if addresses(partitions).contains(addr) {
            let i = choose|i: int|
                0 <= i < partitions.len() && (#[trigger] partitions[i]).addr@ == addr;
            assert(rest[i - 1] == partitions[i]);
        }
        if address_index(rest, addr) < rest.len() {
            assert(partitions[address_index(rest, addr) + 1] == rest[address_index(rest, addr)]);
        }
    } else if partitions.len() > 0 {
        assert(partitions[0].addr@ == addr);
    }
}

impl Partition {
    /// The record of a node with the given fields.
    pub fn new(id: String, addr: String, conn: u64, time_joined: String) -> (p: Partition)
        ensures
            p.id == id,
            p.addr == addr,
            p.conn == conn,
            p.time_joined == time_joined,
    {
        Partition { id, addr, conn, time_joined }
    }

    /// Whether two records stand for the same node.
    pub fn same_node(&self, other: &Partition) -> (same: bool)
        ensures
            same == (self.addr@ == other.addr@),
    {
        self.addr == other.addr
    }

    /// A record with the same fields.
    pub fn duplicate(&self) -> (p: Partition)
        ensures
            p == *self,
    {
        Partition {
            id: self.id.clone(),
            addr: self.addr.clone(),
            conn: self.conn,
            time_joined: self.time_joined.clone(),
        }
    }

    /// The node's name for its peers: its address.
    pub fn to_string(&self) -> (s: String)
        ensures
            s@ == self.addr@,
    {
        self.addr.clone()
    }

    /// The node as a listing shows it.
    pub fn describe(&self) -> (s: String)
        ensures
            s@ == partition_text(*self),
    {
        let mut s = "Partition { id: ".to_owned();
        s.append(self.id.as_str());
        s.append(", addr: ");
        let addr = quoted(self.addr.as_str());
        s.append(addr.as_str());
        s.append(", time_joined: ");
        let time = quoted(self.time_joined.as_str());
        s.append(time.as_str());
        s.append(" }");
        s
    }
}

/// The listing of the given partitions.
pub fn describe_all(partitions: &Vec<Partition>) -> (s: String)
    ensures
        s@ == partitions_text(partitions@),
{
    let mut s = "[".to_owned();
    let mut i: usize = 0;
    while i < partitions.len()
        invariant
            i <= partitions.len(),
            s@ == "["@ + joined_text(partitions@.take(i as int)),
        decreases partitions.len() - i,
    {
        let ghost before = partitions@.take(i as int);
        let ghost after = partitions@.take(i + 1);
        assert(after.drop_last() =~= before);
        assert(after.last() == partitions@[i as int]);
        if i > 0 {
            s.append(", ");
        }
        let one = partitions[i].describe();
        s.append(one.as_str());
        i = i + 1;
        assert(s@ =~= "["@ + joined_text(after));
    }
    assert(partitions@.take(i as int) =~= partitions@);
    s.append("]");
    s
}

} // verus!
