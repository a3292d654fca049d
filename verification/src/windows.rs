//! Process trees on Windows, which has no signals: processes are terminated one by one, and
//! paused and resumed by their threads.

use vstd::prelude::*;

use crate::process;

verus! {

/// `order` with the children of `parent` added that it does not hold yet, in the order of the
/// snapshot.
pub open spec fn with_children(links: Seq<(u32, u32)>, parent: u32, order: Seq<u32>) -> Seq<u32>
    decreases links.len(),
{
    if links.len() == 0 {
        order
    } else {
        let before = with_children(links.drop_last(), parent, order);
        let (pid, ppid) = links.last();
        if ppid == parent && pid != parent && !before.contains(pid) {
            before.push(pid)
        } else {
            before
        }
    }
}

/// The walk that has visited the first `i` processes of `order`, taken to its end. A snapshot
/// cannot lead it further than one step per link beyond the root.
pub open spec fn walk(links: Seq<(u32, u32)>, order: Seq<u32>, i: int) -> Seq<u32>
    decreases links.len() + 1 - i,
{
    if i < 0 || i >= order.len() || i > links.len() {
        order
    } else {
        walk(links, with_children(links, order[i], order), i + 1)
    }
}

/// A process and all its descendants, parents before children.
pub open spec fn tree_of(root: u32, links: Seq<(u32, u32)>) -> Seq<u32> {
    walk(links, seq![root], 0)
}

/// `order` holds no pid twice, and none but the root and pids of the snapshot.
pub open spec fn is_walk_order(root: u32, links: Seq<(u32, u32)>, order: Seq<u32>) -> bool {
    &&& order.no_duplicates()
    &&& order.len() > 0
    &&& order[0] == root
    &&& forall|k: int| 0 < k < order.len() ==> process::pids_of(links).contains(#[trigger] order[k])
}

pub proof fn lemma_walk_order_is_short(root: u32, links: Seq<(u32, u32)>, order: Seq<u32>)
    requires
        is_walk_order(root, links, order),
    ensures
        order.len() <= links.len() + 1,
{
    let pool = seq![root] + process::pids_of(links);
    assert forall|pid: u32| order.to_set().contains(pid) implies pool.to_set().contains(pid) by {
        let k = choose|k: int| 0 <= k < order.len() && order[k] == pid;
        if k == 0 {
            assert(pool[0] == pid);
        } else {
            let m = choose|m: int| 0 <= m < links.len() && process::pids_of(links)[m] == order[k];
            assert(pool[m + 1] == pid);
        }
    }
    order.unique_seq_to_set();
    pool.lemma_cardinality_of_set();
    vstd::set_lib::lemma_len_subset(order.to_set(), pool.to_set());
}

/// Adding children keeps what was there, adds pids of the snapshot only, each once, and leaves
/// out none.
proof fn lemma_with_children(
    root: u32,
    all: Seq<(u32, u32)>,
    links: Seq<(u32, u32)>,
    parent: u32,
    order: Seq<u32>,
)
    requires
        is_walk_order(root, all, order),
        order.contains(parent),
        links.len() <= all.len(),
        links == all.subrange(0, links.len() as int),
    ensures
        is_walk_order(root, all, with_children(links, parent, order)),
        order.len() <= with_children(links, parent, order).len(),
        with_children(links, parent, order).subrange(0, order.len() as int) == order,
        forall|k: int|
            order.len() <= k < with_children(links, parent, order).len() ==> all.contains(
                (#[trigger] with_children(links, parent, order)[k], parent),
            ),
        forall|m: int|
            0 <= m < links.len() && (#[trigger] links[m]).1 == parent ==> with_children(
                links,
                parent,
                order,
            ).contains(links[m].0),
    decreases links.len(),
{
    if links.len() == 0 {
        assert(order.subrange(0, order.len() as int) == order);
    } else {
        let shorter = links.drop_last();
        assert(shorter == all.subrange(0, shorter.len() as int));
        lemma_with_children(root, all, shorter, parent, order);
        let before = with_children(shorter, parent, order);
        let now = with_children(links, parent, order);
        let (pid, ppid) = links.last();
        assert(all[links.len() - 1] == (pid, ppid));
        assert(process::pids_of(all)[links.len() - 1] == pid);
        if now.len() > before.len() {
            assert(now.subrange(0, order.len() as int) == before.subrange(0, order.len() as int));
            assert forall|k: int| 0 < k < now.len() implies process::pids_of(all).contains(
                #[trigger] now[k],
            ) by {
                if k < before.len() {
                    assert(now[k] == before[k]);
                }
            }
        }
        assert forall|k: int| order.len() <= k < now.len() implies all.contains(
            (#[trigger] now[k], parent),
        ) by {
            if k < before.len() {
                assert(now[k] == before[k]);
            }
        }
        assert forall|m: int| 0 <= m < links.len() && (#[trigger] links[m]).1
            == parent implies now.contains(links[m].0) by {
            if m < shorter.len() {
                assert(shorter[m] == links[m]);
                let k = choose|k: int| 0 <= k < before.len() && before[k] == links[m].0;
                assert(now[k] == before[k]);
            } else if pid == parent {
                let k = choose|k: int| 0 <= k < order.len() && order[k] == parent;
                assert(now.subrange(0, order.len() as int)[k] == now[k]);
            } else if before.contains(pid) {
                let k = choose|k: int| 0 <= k < before.len() && before[k] == pid;
                assert(now[k] == pid);
            } else {
                assert(now[now.len() - 1] == pid);
            }
        }
    }
}

/// What holds of a walk at every step: a process's parent stands before it, and the children of
/// the processes visited are all there.
pub open spec fn is_partial_tree(
    root: u32,
    links: Seq<(u32, u32)>,
    order: Seq<u32>,
    i: int,
) -> bool {
    &&& is_walk_order(root, links, order)
    &&& forall|k: int|
        0 < k < order.len() ==> #[trigger] process::has_parent_before(links, order, k, i)
    &&& forall|m: int, k: int|
        0 <= m < links.len() && 0 <= k < i && k < order.len() && (#[trigger] links[m]).1 == (
        #[trigger] order[k]) ==> order.contains(links[m].0)
}

pub proof fn lemma_step_keeps_tree(root: u32, links: Seq<(u32, u32)>, order: Seq<u32>, i: int)
    requires
        is_partial_tree(root, links, order, i),
        0 <= i < order.len(),
    ensures
        is_partial_tree(root, links, with_children(links, order[i], order), i + 1),
        with_children(links, order[i], order).len() >= order.len(),
        with_children(links, order[i], order).len() <= links.len() + 1,
{
    let now = with_children(links, order[i], order);
    assert(links == links.subrange(0, links.len() as int));
    lemma_with_children(root, links, links, order[i], order);
    lemma_walk_order_is_short(root, links, now);
    assert forall|k: int| 0 <= k < order.len() implies now[k] == order[k] by {
        assert(now.subrange(0, order.len() as int)[k] == now[k]);
    }
    let next = i + 1;
    assert forall|k: int| 0 < k < now.len() implies #[trigger] process::has_parent_before(
        links,
        now,
        k,
        next,
    ) by {
        if k < order.len() {
            assert(process::has_parent_before(links, order, k, i));
            let j = choose|j: int|
                0 <= j < k && j < i && links.contains((order[k], #[trigger] order[j]));
            assert(links.contains((now[k], now[j])));
        } else {
            assert(links.contains((now[k], now[i])));
        }
    }
    assert forall|m: int, k: int|
        0 <= m < links.len() && 0 <= k < i + 1 && k < now.len() && (#[trigger] links[m]).1 == (
        #[trigger] now[k]) implies now.contains(links[m].0) by {
        if k < i {
            assert(order[k] == now[k]);
            let n = choose|n: int| 0 <= n < order.len() && order[n] == links[m].0;
            assert(now[n] == order[n]);
        }
    }
}

proof fn lemma_walk_is_tree(root: u32, links: Seq<(u32, u32)>, order: Seq<u32>, i: int)
    requires
        is_partial_tree(root, links, order, i),
        0 <= i <= order.len(),
    ensures
        is_partial_tree(root, links, walk(links, order, i), walk(links, order, i).len() as int),
    decreases links.len() + 1 - i,
{
    lemma_walk_order_is_short(root, links, order);
    if i < order.len() {
        lemma_step_keeps_tree(root, links, order, i);
        lemma_walk_is_tree(root, links, with_children(links, order[i], order), i + 1);
    }
}

proof fn lemma_tree(root: u32, links: Seq<(u32, u32)>)
    ensures
        is_partial_tree(root, links, tree_of(root, links), tree_of(root, links).len() as int),
{
    lemma_walk_is_tree(root, links, seq![root], 0);
}

/// The tree begins with its root and holds no process twice.
pub proof fn law_tree_starts_at_root(root: u32, links: Seq<(u32, u32)>)
    ensures
        tree_of(root, links).len() > 0,
        tree_of(root, links)[0] == root,
        tree_of(root, links).no_duplicates(),
{
    lemma_tree(root, links);
}

/// Every process of the tree but the root comes after a parent of it.
pub proof fn law_parents_before_children(root: u32, links: Seq<(u32, u32)>, k: int)
    requires
        0 < k < tree_of(root, links).len(),
    ensures
        exists|j: int|
            0 <= j < k && links.contains(
                (tree_of(root, links)[k], #[trigger] tree_of(root, links)[j]),
            ),
{
    lemma_tree(root, links);
    let tree = tree_of(root, links);
    assert(process::has_parent_before(links, tree, k, tree.len() as int));
}

/// The tree misses no descendant: a child of one of its processes is one of its processes.
pub proof fn law_tree_is_complete(root: u32, links: Seq<(u32, u32)>, pid: u32, parent: u32)
    requires
        links.contains((pid, parent)),
        tree_of(root, links).contains(parent),
    ensures
        tree_of(root, links).contains(pid),
{
    lemma_tree(root, links);
    let tree = tree_of(root, links);
    let m = choose|m: int| 0 <= m < links.len() && links[m] == (pid, parent);
    let k = choose|k: int| 0 <= k < tree.len() && tree[k] == parent;
    assert(links[m].1 == tree[k]);
}

pub proof fn lemma_walk_extends(links: Seq<(u32, u32)>, order: Seq<u32>, i: int, root: u32)
    requires
        is_partial_tree(root, links, order, i),
        0 <= i <= order.len(),
    ensures
        walk(links, order, i).len() >= order.len(),
        forall|k: int| 0 <= k < order.len() ==> walk(links, order, i)[k] == #[trigger] order[k],
    decreases links.len() + 1 - i,
{
    if i < order.len() && i <= links.len() {
        let now = with_children(links, order[i], order);
        lemma_step_keeps_tree(root, links, order, i);
        assert(links == links.subrange(0, links.len() as int));
        lemma_with_children(root, links, links, order[i], order);
        lemma_walk_extends(links, now, i + 1, root);
        assert forall|k: int| 0 <= k < order.len() implies walk(links, order, i)[k]
            == #[trigger] order[k] by {
            assert(now.subrange(0, order.len() as int)[k] == now[k]);
        }
    }
}

/// In a snapshot that lists each process once, a link is known by its pid.
proof fn lemma_one_link(links: Seq<(u32, u32)>, a: (u32, u32), b: (u32, u32))
    requires
        process::pids_of(links).no_duplicates(),
        links.contains(a),
        links.contains(b),
        a.0 == b.0,
    ensures
        a == b,
{
    let i = choose|i: int| 0 <= i < links.len() && links[i] == a;
    let j = choose|j: int| 0 <= j < links.len() && links[j] == b;
    assert(process::pids_of(links)[i] == process::pids_of(links)[j]);
}

pub proof fn lemma_nothing_repeats(
    root: u32,
    all: Seq<(u32, u32)>,
    links: Seq<(u32, u32)>,
    order: Seq<u32>,
    i: int,
)
    requires
        is_partial_tree(root, all, order, i),
        0 <= i < order.len(),
        process::pids_of(all).no_duplicates(),
        !all.contains((root, order[i])),
        links.len() <= all.len(),
        links == all.subrange(0, links.len() as int),
    ensures
        with_children(links, order[i], order) == order + process::children_of(links, order[i]),
    decreases links.len(),
{
    let parent = order[i];
    if links.len() == 0 {
        assert(order + process::children_of(links, parent) == order);
    } else {
        let shorter = links.drop_last();
        assert(shorter == all.subrange(0, shorter.len() as int));
        lemma_nothing_repeats(root, all, shorter, order, i);
        let (pid, ppid) = links.last();
        let before = with_children(shorter, parent, order);
        let kids = process::children_of(shorter, parent);
        assert(all[links.len() - 1] == (pid, ppid));
        if ppid == parent {
            if pid == parent {
                if i > 0 {
                    assert(process::has_parent_before(all, order, i, i));
                    let j = choose|j: int|
                        0 <= j < i && all.contains((order[i], #[trigger] order[j]));
                    lemma_one_link(all, (order[i], order[j]), (pid, ppid));
                }
                assert(false);
            }
            if before.contains(pid) {
                let k = choose|k: int| 0 <= k < before.len() && before[k] == pid;
                if k < order.len() {
                    assert(order[k] == pid);
                    if k > 0 {
                        assert(process::has_parent_before(all, order, k, i));
                        let j = choose|j: int|
                            0 <= j < k && j < i && all.contains((order[k], #[trigger] order[j]));
                        lemma_one_link(all, (order[k], order[j]), (pid, ppid));
                    }
                } else {
                    assert(kids[k - order.len()] == pid);
                    process::lemma_children_are_linked(shorter, parent);
                    assert(kids.contains(pid));
                    let m = choose|m: int| 0 <= m < shorter.len() && shorter[m] == (pid, parent);
                    assert(all[m] == shorter[m]);
                    assert(process::pids_of(all)[m] == process::pids_of(all)[links.len() - 1]);
                }
                assert(false);
            }
        }
        assert(order + process::children_of(links, parent) == with_children(links, parent, order));
    }
}

/// The pids of `root` and all its descendants, parents before children, from one snapshot.
pub fn process_tree(root: u32, links: &Vec<(u32, u32)>) -> (order: Vec<u32>)
    ensures
        order@ == tree_of(root, links@),
{
    let mut order: Vec<u32> = Vec::new();
    order.push(root);
    let mut i: usize = 0;
    assert(order@ =~= seq![root]);
    while i < order.len()
        invariant
            0 <= i <= order.len(),
            is_partial_tree(root, links@, order@, i as int),
            order@.len() <= links@.len() + 1,
            walk(links@, order@, i as int) == tree_of(root, links@),
        decreases links@.len() + 1 - i,
    {
        let parent: u32 = order[i];
        let ghost before = order@;
        proof {
            lemma_step_keeps_tree(root, links@, before, i as int);
        }
        let mut m: usize = 0;
        assert(links@.subrange(0, 0) =~= Seq::<(u32, u32)>::empty());
        while m < links.len()
            invariant
                m <= links.len(),
                order@ == with_children(links@.subrange(0, m as int), parent, before),
            decreases links.len() - m,
        {
            let (pid, ppid) = links[m];
            proof {
                assert(links@.subrange(0, m + 1).drop_last() == links@.subrange(0, m as int));
                assert(links@.subrange(0, m + 1).last() == (pid, ppid));
            }
            if ppid == parent && pid != parent && !holds(&order, pid) {
                order.push(pid);
            }
            m = m + 1;
        }
        assert(links@.subrange(0, links@.len() as int) == links@);
        i = i + 1;
    }
    order
}

/// Whether a list holds a pid.
fn holds(list: &Vec<u32>, pid: u32) -> (yes: bool)
    ensures
        yes == list@.contains(pid),
{
    let mut i: usize = 0;
    while i < list.len()
        invariant
            i <= list.len(),
            forall|j: int| 0 <= j < i ==> list@[j] != pid,
        decreases list.len() - i,
    {
        if list[i] == pid {
            return true;
        }
        i = i + 1;
    }
    false
}

/// The processes to terminate when a tree is killed, leaves first, so that a worker can't be
/// orphaned and outlive its parent.
pub fn kill_tree(root: u32, links: &Vec<(u32, u32)>) -> (order: Vec<u32>)
    ensures
        order@ == tree_of(root, links@).reverse(),
{
    process::reversed(&process_tree(root, links))
}

/// Killed leaves first, a process but the root goes before a parent of it does.
pub proof fn law_children_killed_before_parents(root: u32, links: Seq<(u32, u32)>, k: int)
    requires
        0 <= k < tree_of(root, links).len() - 1,
    ensures
        exists|j: int|
            k < j < tree_of(root, links).len() && links.contains(
                (
                    tree_of(root, links).reverse()[k],
                    #[trigger] tree_of(root, links).reverse()[j],
                ),
            ),
{
    let tree = tree_of(root, links);
    lemma_tree(root, links);
    assert forall|i: int| 0 < i < tree.len() implies #[trigger] process::has_parent_before(
        links,
        tree,
        i,
        i,
    ) by {
        assert(process::has_parent_before(links, tree, i, tree.len() as int));
    }
    process::lemma_reversed_children_first(links, tree, k);
}

/// A thread that had been suspended so many times before it was resumed once is still
/// suspended, and the attempt did not fail, which `u32::MAX` says.
pub open spec fn still_suspended(previous: int) -> bool {
    1 < previous < u32::MAX
}

/// How many suspensions are left of a thread that has `count` of them, after it was resumed
/// for as long as it was still suspended.
pub open spec fn suspensions_left(count: nat) -> nat
    decreases count,
{
    if count == 0 {
        0
    } else if still_suspended(count as int) {
        suspensions_left((count - 1) as nat)
    } else {
        (count - 1) as nat
    }
}

/// Resuming drains repeated suspensions: a thread that was suspended any number of times wakes
/// fully.
pub proof fn law_resuming_wakes_thread(count: nat)
    requires
        count < u32::MAX,
    ensures
        suspensions_left(count) == 0,
    decreases count,
{
    if count > 1 {
        law_resuming_wakes_thread((count - 1) as nat);
    }
}

/// Whether a thread that had been suspended `previous` times before it was resumed once must be
/// resumed again to run.
pub fn resume_again(previous: u32) -> (again: bool)
    ensures
        again == still_suspended(previous as int),
{
    !(previous == u32::MAX || previous <= 1)
}

/// The threads, each with the process that owns it, that belong to one of the processes.
pub open spec fn threads_of(pids: Seq<u32>, threads: Seq<(u32, u32)>) -> Seq<u32>
    decreases threads.len(),
{
    if threads.len() == 0 {
        seq![]
    } else {
        let before = threads_of(pids, threads.drop_last());
        let (thread, owner) = threads.last();
        if pids.contains(owner) {
            before.push(thread)
        } else {
            before
        }
    }
}

/// The thread id of every thread owned by one of `pids`.
pub fn owned_threads(pids: &Vec<u32>, threads: &Vec<(u32, u32)>) -> (owned: Vec<u32>)
    ensures
        owned@ == threads_of(pids@, threads@),
{
    let mut owned: Vec<u32> = Vec::new();
    let mut i: usize = 0;
    assert(threads@.subrange(0, 0) =~= Seq::<(u32, u32)>::empty());
    while i < threads.len()
        invariant
            i <= threads.len(),
            owned@ == threads_of(pids@, threads@.subrange(0, i as int)),
        decreases threads.len() - i,
    {
        let (thread, owner) = threads[i];
        proof {
            assert(threads@.subrange(0, i + 1).drop_last() == threads@.subrange(0, i as int));
            assert(threads@.subrange(0, i + 1).last() == (thread, owner));
        }
        if holds(pids, owner) {
            owned.push(thread);
        }
        i = i + 1;
    }
    assert(threads@.subrange(0, threads@.len() as int) == threads@);
    owned
}

/// How often the threads of a tree are suspended when it is paused. The second pass catches a
/// thread or child that appears during the first.
pub const SUSPEND_PASSES: u32 = 2;

/// How far the pausing of a tree by its threads has come.
#[derive(Clone, Copy, Debug, PartialEq, Eq, Structural)]
pub struct Suspension {
    /// The passes done.
    pub passes: u32,
}

impl Suspension {
    /// All passes are done.
    pub open spec fn is_done(self) -> bool {
        self.passes >= SUSPEND_PASSES
    }

    /// A suspension that has not begun.
    pub fn new() -> (suspension: Suspension)
        ensures
            suspension.passes == 0,
    {
        Suspension { passes: 0 }
    }

    /// Whether all passes are done.
    pub fn done(&self) -> (yes: bool)
        ensures
            yes == self.is_done(),
    {
        self.passes >= SUSPEND_PASSES
    }
}

/// One pass of pausing a tree: every thread of every process of it is suspended, until all
/// passes are done.
pub fn stop_tree(
    suspension: &mut Suspension,
    root: u32,
    links: &Vec<(u32, u32)>,
    threads: &Vec<(u32, u32)>,
) -> (list: Vec<u32>)
    ensures
        if old(suspension).is_done() {
            *final(suspension) == *old(suspension) && list@ == Seq::<u32>::empty()
        } else {
            &&& final(suspension).passes == old(suspension).passes + 1
            &&& list@ == threads_of(tree_of(root, links@), threads@)
        },
{
    if suspension.done() {
        return Vec::new();
    }
    suspension.passes = suspension.passes + 1;
    owned_threads(&process_tree(root, links), threads)
}

/// The threads to resume when a tree goes on: every thread of every process of it.
pub fn cont_tree(root: u32, links: &Vec<(u32, u32)>, threads: &Vec<(u32, u32)>) -> (list: Vec<
    u32,
>)
    ensures
        list@ == threads_of(tree_of(root, links@), threads@),
{
    owned_threads(&process_tree(root, links), threads)
}

/// A thread is to be reached exactly when it is listed with an owner among the processes.
pub proof fn law_threads_of_the_processes(pids: Seq<u32>, threads: Seq<(u32, u32)>, thread: u32)
    ensures
        threads_of(pids, threads).contains(thread) <==> exists|i: int|
            0 <= i < threads.len() && (#[trigger] threads[i]).0 == thread && pids.contains(
                threads[i].1,
            ),
    decreases threads.len(),
{
    if threads.len() > 0 {
        let shorter = threads.drop_last();
        law_threads_of_the_processes(pids, shorter, thread);
        let before = threads_of(pids, shorter);
        let now = threads_of(pids, threads);
        if before.contains(thread) {
            let k = choose|k: int| 0 <= k < before.len() && before[k] == thread;
            assert(now[k] == thread);
            let i = choose|i: int|
                0 <= i < shorter.len() && (#[trigger] shorter[i]).0 == thread && pids.contains(
                    shorter[i].1,
                );
            assert(threads[i] == shorter[i]);
        }
        if exists|i: int|
            0 <= i < threads.len() && (#[trigger] threads[i]).0 == thread && pids.contains(
                threads[i].1,
            ) {
            let i = choose|i: int|
                0 <= i < threads.len() && (#[trigger] threads[i]).0 == thread && pids.contains(
                    threads[i].1,
                );
            if i < shorter.len() {
                assert(shorter[i] == threads[i]);
            } else {
                assert(now[now.len() - 1] == thread);
            }
        }
        if now.contains(thread) && !before.contains(thread) {
            let k = choose|k: int| 0 <= k < now.len() && now[k] == thread;
            if k < before.len() {
                assert(before[k] == thread);
            }
            assert(threads[threads.len() - 1].0 == thread);
        }
    }
}

/// The threads of a list are those of its parts, one after another, and each thread is taken by
/// its own owner alone.
pub proof fn law_threads_one_by_one(
    pids: Seq<u32>,
    first: Seq<(u32, u32)>,
    second: Seq<(u32, u32)>,
    thread: u32,
    owner: u32,
)
    ensures
        threads_of(pids, first + second) == threads_of(pids, first) + threads_of(pids, second),
        threads_of(pids, seq![(thread, owner)]) == (if pids.contains(owner) {
            seq![thread]
        } else {
            seq![]
        }),
    decreases second.len(),
{
    let one = seq![(thread, owner)];
    assert(one.drop_last() =~= Seq::<(u32, u32)>::empty());
    assert(threads_of(pids, one.drop_last()) =~= Seq::<u32>::empty());
    assert(threads_of(pids, one) =~= (if pids.contains(owner) {
        seq![thread]
    } else {
        seq![]
    }));
    if second.len() == 0 {
        assert(first + second =~= first);
        assert(threads_of(pids, first) + threads_of(pids, second) =~= threads_of(pids, first));
    } else {
        let shorter = second.drop_last();
        law_threads_one_by_one(pids, first, shorter, thread, owner);
        assert((first + second).drop_last() =~= first + shorter);
        assert(threads_of(pids, first + second) =~= threads_of(pids, first) + threads_of(
            pids,
            second,
        ));
    }
}

/// Pausing and resuming a tree reach every thread of every process of it.
pub proof fn law_every_thread_is_reached(
    root: u32,
    links: Seq<(u32, u32)>,
    threads: Seq<(u32, u32)>,
    i: int,
)
    requires
        0 <= i < threads.len(),
        tree_of(root, links).contains(threads[i].1),
    ensures
        threads_of(tree_of(root, links), threads).contains(threads[i].0),
{
    law_threads_of_the_processes(tree_of(root, links), threads, threads[i].0);
}

/// Killing a tree reaches exactly its processes, each once: its last process first, its root at
/// the end.
pub proof fn law_every_process_is_killed(root: u32, links: Seq<(u32, u32)>, k: int)
    requires
        0 <= k < tree_of(root, links).len(),
    ensures
        tree_of(root, links).reverse().len() == tree_of(root, links).len(),
        tree_of(root, links).reverse()[k] == tree_of(root, links)[tree_of(root, links).len() - 1
            - k],
        tree_of(root, links).reverse().last() == root,
{
    law_tree_starts_at_root(root, links);
}

/// What is in the tree is the root or comes down from it: of every set of processes that holds
/// the root and the children of its own, the tree is a part.
pub proof fn law_tree_holds_descendants_only(
    root: u32,
    links: Seq<(u32, u32)>,
    family: Set<u32>,
    k: int,
)
    requires
        family.contains(root),
        forall|i: int|
            0 <= i < links.len() && family.contains((#[trigger] links[i]).1) ==> family.contains(
                links[i].0,
            ),
        0 <= k < tree_of(root, links).len(),
    ensures
        family.contains(tree_of(root, links)[k]),
    decreases k,
{
    law_tree_starts_at_root(root, links);
    if k > 0 {
        law_parents_before_children(root, links, k);
        let tree = tree_of(root, links);
        let j = choose|j: int| 0 <= j < k && links.contains((tree[k], #[trigger] tree[j]));
        law_tree_holds_descendants_only(root, links, family, j);
        let m = choose|m: int| 0 <= m < links.len() && links[m] == (tree[k], tree[j]);
        assert(family.contains(links[m].1));
    }
}

} // verus!
