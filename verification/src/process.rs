//! Process trees: what the systems have in common.
//!
//! The engine is a bootloader that forks a worker child, so cancelling, pausing and resuming
//! must reach the whole tree. A snapshot of the system's processes is a list of pairs of a pid
//! and its parent's pid.

use vstd::prelude::*;

verus! {

/// The pids of a snapshot.
pub open spec fn pids_of(links: Seq<(u32, u32)>) -> Seq<u32> {
    links.map_values(|link: (u32, u32)| link.0)
}

/// All the children of `parent`, in the order of the snapshot.
pub open spec fn children_of(links: Seq<(u32, u32)>, parent: u32) -> Seq<u32>
    decreases links.len(),
{
    if links.len() == 0 {
        seq![]
    } else {
        let before = children_of(links.drop_last(), parent);
        let (pid, ppid) = links.last();
        if ppid == parent {
            before.push(pid)
        } else {
            before
        }
    }
}

/// The children of `parent` are linked to it.
pub proof fn lemma_children_are_linked(links: Seq<(u32, u32)>, parent: u32)
    ensures
        forall|pid: u32| #[trigger]
            children_of(links, parent).contains(pid) ==> links.contains((pid, parent)),
    decreases links.len(),
{
    if links.len() > 0 {
        let shorter = links.drop_last();
        lemma_children_are_linked(shorter, parent);
        let before = children_of(shorter, parent);
        let now = children_of(links, parent);
        assert forall|pid: u32| #[trigger] now.contains(pid) implies links.contains(
            (pid, parent),
        ) by {
            let k = choose|k: int| 0 <= k < now.len() && now[k] == pid;
            if k < before.len() {
                assert(before[k] == pid);
                assert(before.contains(pid));
                let m = choose|m: int| 0 <= m < shorter.len() && shorter[m] == (pid, parent);
                assert(links[m] == (pid, parent));
            } else {
                assert(links[links.len() - 1] == (pid, parent));
            }
        }
    }
}

/// A child of `parent` is among its children.
pub proof fn lemma_child_is_found(links: Seq<(u32, u32)>, pid: u32, parent: u32)
    requires
        links.contains((pid, parent)),
    ensures
        children_of(links, parent).contains(pid),
    decreases links.len(),
{
    let shorter = links.drop_last();
    let now = children_of(links, parent);
    if links.last() == (pid, parent) {
        assert(now[now.len() - 1] == pid);
    } else {
        let m = choose|m: int| 0 <= m < links.len() && links[m] == (pid, parent);
        assert(shorter[m] == (pid, parent));
        lemma_child_is_found(shorter, pid, parent);
        let before = children_of(shorter, parent);
        let k = choose|k: int| 0 <= k < before.len() && before[k] == pid;
        assert(now[k] == pid);
    }
}

/// Every process of a list but the first comes after a parent of it.
pub open spec fn parents_come_first(links: Seq<(u32, u32)>, order: Seq<u32>) -> bool {
    forall|k: int| 0 < k < order.len() ==> #[trigger] has_parent_before(links, order, k, k)
}

/// A parent of the process at `k` stands before it, among the first `i`.
pub open spec fn has_parent_before(
    links: Seq<(u32, u32)>,
    order: Seq<u32>,
    k: int,
    i: int,
) -> bool {
    exists|j: int| 0 <= j < k && j < i && links.contains((order[k], #[trigger] order[j]))
}

/// A signal to a process.
#[derive(Clone, Copy, Debug, PartialEq, Eq, Structural)]
pub enum Signal {
    /// Suspend it.
    Stop,
    /// Let it go on.
    Continue,
    /// End it.
    Kill,
}

/// A signal and the process it goes to.
#[derive(Clone, Copy, Debug, PartialEq, Eq, Structural)]
pub struct Delivery {
    pub pid: u32,
    pub signal: Signal,
}

/// The same signal to every process of a list, in its order.
pub open spec fn deliveries(pids: Seq<u32>, signal: Signal) -> Seq<Delivery> {
    pids.map_values(|pid: u32| Delivery { pid, signal })
}

/// A signal to every process of a tree, leaves first.
pub open spec fn leaves_first(tree: Seq<u32>, signal: Signal) -> Seq<Delivery> {
    deliveries(tree.reverse(), signal)
}

/// A signal to every process of a tree, parents first.
pub open spec fn parents_first(tree: Seq<u32>, signal: Signal) -> Seq<Delivery> {
    deliveries(tree, signal)
}

/// Hands the same signal to every process of a list, in its order.
pub fn deliver(pids: &Vec<u32>, signal: Signal) -> (list: Vec<Delivery>)
    ensures
        list@ == deliveries(pids@, signal),
{
    let mut list: Vec<Delivery> = Vec::new();
    let mut i: usize = 0;
    while i < pids.len()
        invariant
            i <= pids.len(),
            list@ == deliveries(pids@, signal).subrange(0, i as int),
        decreases pids.len() - i,
    {
        list.push(Delivery { pid: pids[i], signal });
        i = i + 1;
        assert(list@ =~= deliveries(pids@, signal).subrange(0, i as int));
    }
    assert(list@ =~= deliveries(pids@, signal));
    list
}

/// A list from its end to its start.
pub fn reversed(order: &Vec<u32>) -> (list: Vec<u32>)
    ensures
        list@ == order@.reverse(),
{
    let mut list: Vec<u32> = Vec::new();
    let mut n: usize = order.len();
    while n > 0
        invariant
            n <= order.len(),
            list@ == order@.reverse().subrange(0, order@.len() - n),
        decreases n,
    {
        n = n - 1;
        list.push(order[n]);
        assert(list@ =~= order@.reverse().subrange(0, order@.len() - n));
    }
    assert(list@ =~= order@.reverse());
    list
}

/// Where parents come first in a list, a process but the first comes before a parent of it in
/// the reversed list.
pub proof fn lemma_reversed_children_first(links: Seq<(u32, u32)>, order: Seq<u32>, k: int)
    requires
        parents_come_first(links, order),
        0 <= k < order.len() - 1,
    ensures
        exists|j: int|
            k < j < order.len() && links.contains(
                (order.reverse()[k], #[trigger] order.reverse()[j]),
            ),
{
    let at = order.len() - 1 - k;
    assert(has_parent_before(links, order, at, at));
    let m = choose|m: int| 0 <= m < at && links.contains((order[at], #[trigger] order[m]));
    let j = order.len() - 1 - m;
    assert(order.reverse()[k] == order[at]);
    assert(order.reverse()[j] == order[m]);
}

/// The children in a snapshot are those of its parts, one after another, and a link gives the
/// child of its own parent alone.
pub proof fn law_children_one_by_one(
    first: Seq<(u32, u32)>,
    second: Seq<(u32, u32)>,
    pid: u32,
    ppid: u32,
    parent: u32,
)
    ensures
        children_of(first + second, parent) == children_of(first, parent) + children_of(
            second,
            parent,
        ),
        children_of(seq![(pid, ppid)], parent) == (if ppid == parent {
            seq![pid]
        } else {
            seq![]
        }),
    decreases second.len(),
{
    let one = seq![(pid, ppid)];
    assert(one.drop_last() =~= Seq::<(u32, u32)>::empty());
    assert(children_of(one.drop_last(), parent) =~= Seq::<u32>::empty());
    assert(children_of(one, parent) =~= (if ppid == parent {
        seq![pid]
    } else {
        seq![]
    }));
    if second.len() == 0 {
        assert(first + second =~= first);
        assert(children_of(first, parent) + children_of(second, parent) =~= children_of(
            first,
            parent,
        ));
    } else {
        let shorter = second.drop_last();
        law_children_one_by_one(first, shorter, pid, ppid, parent);
        assert((first + second).drop_last() =~= first + shorter);
        assert(children_of(first + second, parent) =~= children_of(first, parent) + children_of(
            second,
            parent,
        ));
    }
}

/// Every process of a list gets the signal, and no other process does: in the list's order, or
/// from its end to its start.
pub proof fn law_every_process_is_signalled(tree: Seq<u32>, signal: Signal, k: int)
    requires
        0 <= k < tree.len(),
    ensures
        parents_first(tree, signal).len() == tree.len(),
        parents_first(tree, signal)[k] == (Delivery { pid: tree[k], signal }),
        leaves_first(tree, signal).len() == tree.len(),
        leaves_first(tree, signal)[k] == (Delivery { pid: tree[tree.len() - 1 - k], signal }),
{
}

} // verus!
