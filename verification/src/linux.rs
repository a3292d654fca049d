//! Process trees on Linux: read from `/proc`, and paused, resumed and killed by signals.

use vstd::prelude::*;

use crate::process::{self, Delivery, Signal};
use crate::{decimal, text, windows};

verus! {

/// The walk down a tree after its first `n` steps. It starts with the root alone; each step
/// visits the next process of the list and adds its children at the end.
pub open spec fn steps(root: u32, links: Seq<(u32, u32)>, n: nat) -> Seq<u32>
    decreases n,
{
    if n == 0 {
        seq![root]
    } else {
        let order = steps(root, links, (n - 1) as nat);
        if n - 1 < order.len() {
            order + process::children_of(links, order[n - 1])
        } else {
            order
        }
    }
}

/// All processes found have been visited after `n` steps.
pub open spec fn ends_at(root: u32, links: Seq<(u32, u32)>, n: nat) -> bool {
    steps(root, links, n).len() <= n
}

/// A process and all its descendants, parents before children, as often as the snapshot lists
/// them; nothing where a process is its own descendant, so that the walk has no end.
pub open spec fn tree_of(root: u32, links: Seq<(u32, u32)>) -> Option<Seq<u32>> {
    if exists|n: nat| ends_at(root, links, n) {
        Some(steps(root, links, choose|n: nat| ends_at(root, links, n)))
    } else {
        None
    }
}

proof fn lemma_steps_stay(root: u32, links: Seq<(u32, u32)>, n: nat, m: nat)
    requires
        ends_at(root, links, n),
        n <= m,
    ensures
        steps(root, links, m) == steps(root, links, n),
    decreases m,
{
    if n < m {
        lemma_steps_stay(root, links, n, (m - 1) as nat);
    }
}

proof fn lemma_tree_found(root: u32, links: Seq<(u32, u32)>, n: nat)
    requires
        ends_at(root, links, n),
    ensures
        tree_of(root, links) == Some(steps(root, links, n)),
{
    let c = choose|c: nat| ends_at(root, links, c);
    if c <= n {
        lemma_steps_stay(root, links, c, n);
    } else {
        lemma_steps_stay(root, links, n, c);
    }
}

/// The children of each of the parents, one after another.
pub open spec fn next_generation(links: Seq<(u32, u32)>, parents: Seq<u32>) -> Seq<u32>
    decreases parents.len(),
{
    if parents.len() == 0 {
        seq![]
    } else {
        next_generation(links, parents.drop_last()) + process::children_of(links, parents.last())
    }
}

/// The descendants of the root at a distance from it.
spec fn generation(root: u32, links: Seq<(u32, u32)>, k: nat) -> Seq<u32>
    decreases k,
{
    if k == 0 {
        seq![root]
    } else {
        next_generation(links, generation(root, links, (k - 1) as nat))
    }
}

/// The generations before one, one after another.
spec fn earlier(root: u32, links: Seq<(u32, u32)>, k: nat) -> Seq<u32>
    decreases k,
{
    if k == 0 {
        seq![]
    } else {
        earlier(root, links, (k - 1) as nat) + generation(root, links, (k - 1) as nat)
    }
}

proof fn lemma_within_generation(root: u32, links: Seq<(u32, u32)>, k: nat, j: nat)
    requires
        steps(root, links, earlier(root, links, k).len()) == earlier(root, links, k) + generation(
            root,
            links,
            k,
        ),
        j <= generation(root, links, k).len(),
    ensures
        steps(root, links, earlier(root, links, k).len() + j) == earlier(root, links, k)
            + generation(root, links, k) + next_generation(
            links,
            generation(root, links, k).subrange(0, j as int),
        ),
    decreases j,
{
    let before = earlier(root, links, k);
    let level = generation(root, links, k);
    if j == 0 {
        assert(before + level + next_generation(links, level.subrange(0, 0)) == before + level);
    } else {
        lemma_within_generation(root, links, k, (j - 1) as nat);
        let n = before.len() + j;
        let order = steps(root, links, (n - 1) as nat);
        assert(order[n - 1] == level[j - 1]);
        let visited = level.subrange(0, j as int);
        assert(visited.drop_last() == level.subrange(0, j - 1));
        assert(visited.last() == level[j - 1]);
        assert(order + process::children_of(links, level[j - 1]) == before + level
            + next_generation(links, visited));
    }
}

/// The walk goes through the generations one by one.
proof fn lemma_generations(root: u32, links: Seq<(u32, u32)>, k: nat)
    ensures
        steps(root, links, earlier(root, links, k).len()) == earlier(root, links, k) + generation(
            root,
            links,
            k,
        ),
    decreases k,
{
    if k == 0 {
        assert(earlier(root, links, 0) + generation(root, links, 0) == seq![root]);
    } else {
        let p = (k - 1) as nat;
        let level = generation(root, links, p);
        lemma_generations(root, links, p);
        lemma_within_generation(root, links, p, level.len());
        assert(level.subrange(0, level.len() as int) == level);
    }
}

/// Where a generation is empty, the walk ends.
proof fn lemma_ended(root: u32, links: Seq<(u32, u32)>, k: nat)
    requires
        generation(root, links, k).len() == 0,
    ensures
        tree_of(root, links) == Some(earlier(root, links, k)),
{
    lemma_generations(root, links, k);
    assert(earlier(root, links, k) + generation(root, links, k) == earlier(root, links, k));
    lemma_tree_found(root, links, earlier(root, links, k).len());
}

proof fn lemma_in_next(links: Seq<(u32, u32)>, parents: Seq<u32>, pid: u32, parent: u32)
    requires
        parents.contains(parent),
        links.contains((pid, parent)),
    ensures
        next_generation(links, parents).contains(pid),
    decreases parents.len(),
{
    let shorter = next_generation(links, parents.drop_last());
    let kids = process::children_of(links, parents.last());
    let next = next_generation(links, parents);
    if parents.last() == parent {
        process::lemma_child_is_found(links, pid, parent);
        let k = choose|k: int| 0 <= k < kids.len() && kids[k] == pid;
        assert(next[shorter.len() + k] == pid);
    } else {
        let m = choose|m: int| 0 <= m < parents.len() && parents[m] == parent;
        assert(parents.drop_last()[m] == parent);
        lemma_in_next(links, parents.drop_last(), pid, parent);
        let k = choose|k: int| 0 <= k < shorter.len() && shorter[k] == pid;
        assert(next[k] == pid);
    }
}

proof fn lemma_from_earlier(links: Seq<(u32, u32)>, parents: Seq<u32>, pid: u32) -> (parent: u32)
    requires
        next_generation(links, parents).contains(pid),
    ensures
        parents.contains(parent),
        links.contains((pid, parent)),
    decreases parents.len(),
{
    let shorter = next_generation(links, parents.drop_last());
    let kids = process::children_of(links, parents.last());
    let next = next_generation(links, parents);
    let k = choose|k: int| 0 <= k < next.len() && next[k] == pid;
    if k < shorter.len() {
        assert(shorter[k] == pid);
        let parent = lemma_from_earlier(links, parents.drop_last(), pid);
        let m = choose|m: int|
            0 <= m < parents.drop_last().len() && parents.drop_last()[m] == parent;
        assert(parents[m] == parent);
        parent
    } else {
        assert(kids[k - shorter.len()] == pid);
        process::lemma_children_are_linked(links, parents.last());
        assert(kids.contains(pid));
        assert(parents[parents.len() - 1] == parents.last());
        parents.last()
    }
}

/// The snapshot holds the link from one process of a path to the next.
spec fn linked(links: Seq<(u32, u32)>, path: Seq<u32>, i: int) -> bool {
    links.contains((path[i + 1], path[i]))
}

/// A path down the tree: each process is a child of the one before it.
spec fn is_path(root: u32, links: Seq<(u32, u32)>, path: Seq<u32>) -> bool {
    &&& path.len() > 0
    &&& path[0] == root
    &&& forall|i: int| 0 <= i < path.len() - 1 ==> #[trigger] linked(links, path, i)
}

proof fn lemma_path_to(root: u32, links: Seq<(u32, u32)>, k: nat, pid: u32) -> (path: Seq<u32>)
    requires
        generation(root, links, k).contains(pid),
    ensures
        is_path(root, links, path),
        path.len() == k + 1,
        path.last() == pid,
    decreases k,
{
    if k == 0 {
        seq![pid]
    } else {
        let parent = lemma_from_earlier(links, generation(root, links, (k - 1) as nat), pid);
        let shorter = lemma_path_to(root, links, (k - 1) as nat, parent);
        let path = shorter.push(pid);
        assert forall|i: int| 0 <= i < path.len() - 1 implies #[trigger] linked(links, path, i) by {
            if i < shorter.len() - 1 {
                assert(linked(links, shorter, i));
            }
        }
        path
    }
}

proof fn lemma_path_is_in_generations(
    root: u32,
    links: Seq<(u32, u32)>,
    path: Seq<u32>,
    k: nat,
)
    requires
        is_path(root, links, path),
        k < path.len(),
    ensures
        generation(root, links, k).contains(path[k as int]),
    decreases k,
{
    if k == 0 {
        assert(generation(root, links, 0)[0] == root);
    } else {
        let p = (k - 1) as nat;
        lemma_path_is_in_generations(root, links, path, p);
        assert(linked(links, path, p as int));
        lemma_in_next(links, generation(root, links, p), path[k as int], path[p as int]);
    }
}

/// The place of a link of a path in the snapshot.
spec fn link_at(links: Seq<(u32, u32)>, path: Seq<u32>, i: int) -> int {
    choose|m: int| 0 <= m < links.len() && links[m] == (path[i + 1], path[i])
}

/// A path with more links than the snapshot takes one of them twice.
proof fn lemma_path_comes_back(root: u32, links: Seq<(u32, u32)>, path: Seq<u32>) -> (ends: (
    int,
    int,
))
    requires
        is_path(root, links, path),
        path.len() == links.len() + 2,
    ensures
        0 <= ends.0 < ends.1 < path.len(),
        path[ends.0] == path[ends.1],
{
    let n = (links.len() + 1) as nat;
    let places = Seq::new(n, |i: int| link_at(links, path, i));
    assert forall|i: int| 0 <= i < n implies 0 <= #[trigger] places[i] < links.len()
        && links[places[i]] == (path[i + 1], path[i]) by {
        assert(linked(links, path, i));
    }
    if places.no_duplicates() {
        let range = vstd::set_lib::set_int_range(0, links.len() as int);
        vstd::set_lib::lemma_int_range(0, links.len() as int);
        assert forall|m: int| places.to_set().contains(m) implies range.contains(m) by {
            let i = choose|i: int| 0 <= i < places.len() && places[i] == m;
            assert(0 <= places[i] < links.len());
        }
        places.unique_seq_to_set();
        vstd::set_lib::lemma_len_subset(places.to_set(), range);
        assert(false);
    }
    let (a, b) = choose|a: int, b: int|
        0 <= a < places.len() && 0 <= b < places.len() && a != b && places[a] == places[b];
    assert(links[places[a]] == (path[a + 1], path[a]));
    assert(links[places[b]] == (path[b + 1], path[b]));
    if a < b {
        (a, b)
    } else {
        (b, a)
    }
}

/// Round a cycle, every generation from its start on has one of its processes.
proof fn lemma_round_and_round(
    root: u32,
    links: Seq<(u32, u32)>,
    path: Seq<u32>,
    a: int,
    b: int,
    k: nat,
) -> (at: int)
    requires
        is_path(root, links, path),
        0 <= a < b < path.len(),
        path[a] == path[b],
        k >= a,
    ensures
        a <= at < b,
        generation(root, links, k).contains(path[at]),
    decreases k,
{
    if k == a {
        lemma_path_is_in_generations(root, links, path, k);
        a
    } else {
        let p = (k - 1) as nat;
        let at = lemma_round_and_round(root, links, path, a, b, p);
        assert(linked(links, path, at));
        lemma_in_next(links, generation(root, links, p), path[at + 1], path[at]);
        if at + 1 == b {
            a
        } else {
            at + 1
        }
    }
}

/// Where there are more generations than links, no generation is empty.
proof fn lemma_no_generation_is_empty(root: u32, links: Seq<(u32, u32)>, k: nat)
    requires
        generation(root, links, links.len() + 1).len() > 0,
    ensures
        generation(root, links, k).len() > 0,
{
    let deep = generation(root, links, links.len() + 1);
    assert(deep.contains(deep[0]));
    let path = lemma_path_to(root, links, links.len() + 1, deep[0]);
    if k < path.len() {
        lemma_path_is_in_generations(root, links, path, k);
    } else {
        let (a, b) = lemma_path_comes_back(root, links, path);
        let at = lemma_round_and_round(root, links, path, a, b, k);
    }
}

proof fn lemma_generations_add_up(root: u32, links: Seq<(u32, u32)>, k: nat)
    requires
        generation(root, links, links.len() + 1).len() > 0,
    ensures
        earlier(root, links, k).len() >= k,
    decreases k,
{
    if k > 0 {
        lemma_generations_add_up(root, links, (k - 1) as nat);
        lemma_no_generation_is_empty(root, links, (k - 1) as nat);
    }
}

/// Where there are more generations than links, the walk has no end.
proof fn lemma_endless(root: u32, links: Seq<(u32, u32)>)
    requires
        generation(root, links, links.len() + 1).len() > 0,
    ensures
        tree_of(root, links) is None,
{
    assert forall|n: nat| !ends_at(root, links, n) by {
        if ends_at(root, links, n) {
            let k = n + 1;
            lemma_generations_add_up(root, links, k);
            lemma_generations(root, links, k);
            lemma_steps_stay(root, links, n, earlier(root, links, k).len());
            assert(false);
        }
    }
}

/// The children of `parent` in a snapshot, added to a list.
fn push_children(links: &Vec<(u32, u32)>, parent: u32, list: &mut Vec<u32>)
    ensures
        final(list)@ == old(list)@ + process::children_of(links@, parent),
{
    let ghost before = list@;
    let mut m: usize = 0;
    assert(links@.subrange(0, 0) =~= Seq::<(u32, u32)>::empty());
    assert(before + process::children_of(links@.subrange(0, 0), parent) =~= before);
    while m < links.len()
        invariant
            m <= links.len(),
            list@ == before + process::children_of(links@.subrange(0, m as int), parent),
        decreases links.len() - m,
    {
        let (pid, ppid) = links[m];
        proof {
            assert(links@.subrange(0, m + 1).drop_last() == links@.subrange(0, m as int));
            assert(links@.subrange(0, m + 1).last() == (pid, ppid));
        }
        if ppid == parent {
            list.push(pid);
        }
        m = m + 1;
        assert(list@ =~= before + process::children_of(links@.subrange(0, m as int), parent));
    }
    assert(links@.subrange(0, links@.len() as int) == links@);
}

/// The pids of `root` and all its descendants, parents before children, from one snapshot of
/// `/proc`. Nothing where the snapshot makes a process its own descendant.
pub fn process_tree(root: u32, links: &Vec<(u32, u32)>) -> (order: Option<Vec<u32>>)
    ensures
        match order {
            Some(order) => tree_of(root, links@) == Some(order@),
            None => tree_of(root, links@) is None,
        },
{
    let mut order: Vec<u32> = Vec::new();
    let mut level: Vec<u32> = Vec::new();
    level.push(root);
    // How many more generations there can be.
    let mut left: usize = links.len();
    assert(level@ =~= generation(root, links@, 0));
    assert(order@ =~= earlier(root, links@, 0));
    loop
        invariant
            left <= links.len(),
            level@ == generation(root, links@, (links@.len() - left) as nat),
            order@ == earlier(root, links@, (links@.len() - left) as nat),
        decreases left,
    {
        let ghost k = (links@.len() - left) as nat;
        if level.len() == 0 {
            proof {
                lemma_ended(root, links@, k);
            }
            return Some(order);
        }
        let ghost before = order@;
        let mut next: Vec<u32> = Vec::new();
        let mut i: usize = 0;
        assert(before + level@.subrange(0, 0) =~= before);
        while i < level.len()
            invariant
                i <= level.len(),
                order@ == before + level@.subrange(0, i as int),
                next@ == next_generation(links@, level@.subrange(0, i as int)),
            decreases level.len() - i,
        {
            proof {
                assert(level@.subrange(0, i + 1).drop_last() == level@.subrange(0, i as int));
                assert(level@.subrange(0, i + 1).last() == level@[i as int]);
            }
            order.push(level[i]);
            push_children(links, level[i], &mut next);
            i = i + 1;
            assert(order@ =~= before + level@.subrange(0, i as int));
        }
        assert(level@.subrange(0, level@.len() as int) == level@);
        level = next;
        assert(level@ == generation(root, links@, k + 1));
        assert(order@ == earlier(root, links@, k + 1));
        if left == 0 {
            if level.len() == 0 {
                proof {
                    lemma_ended(root, links@, k + 1);
                }
                return Some(order);
            }
            proof {
                lemma_endless(root, links@);
            }
            return None;
        }
        left = left - 1;
    }
}

/// What holds of a walk at every step: it starts with the root, a process's parent stands
/// before it, and the children of the processes visited are all there.
spec fn is_partial_walk(
    root: u32,
    links: Seq<(u32, u32)>,
    order: Seq<u32>,
    n: int,
) -> bool {
    &&& order.len() > 0
    &&& order[0] == root
    &&& process::parents_come_first(links, order)
    &&& forall|m: int, k: int|
        0 <= m < links.len() && 0 <= k < n && k < order.len() && (#[trigger] links[m]).1 == (
        #[trigger] order[k]) ==> order.contains(links[m].0)
}

proof fn lemma_steps(root: u32, links: Seq<(u32, u32)>, n: nat)
    ensures
        is_partial_walk(root, links, steps(root, links, n), n as int),
    decreases n,
{
    if n > 0 {
        lemma_steps(root, links, (n - 1) as nat);
        let order = steps(root, links, (n - 1) as nat);
        let now = steps(root, links, n);
        if n - 1 < order.len() {
            let parent = order[n - 1];
            let kids = process::children_of(links, parent);
            process::lemma_children_are_linked(links, parent);
            assert forall|k: int| 0 < k < now.len() implies #[trigger] process::has_parent_before(
                links,
                now,
                k,
                k,
            ) by {
                if k < order.len() {
                    assert(process::has_parent_before(links, order, k, k));
                    let j = choose|j: int|
                        0 <= j < k && links.contains((order[k], #[trigger] order[j]));
                    assert(links.contains((now[k], now[j])));
                } else {
                    assert(kids.contains(kids[k - order.len()]));
                    assert(links.contains((now[k], now[n - 1])));
                }
            }
            assert forall|m: int, k: int|
                0 <= m < links.len() && 0 <= k < n && k < now.len() && (#[trigger] links[m]).1 == (
                #[trigger] now[k]) implies now.contains(links[m].0) by {
                if k < n - 1 {
                    assert(order[k] == now[k]);
                    let i = choose|i: int| 0 <= i < order.len() && order[i] == links[m].0;
                    assert(now[i] == order[i]);
                } else {
                    assert(links[m] == (links[m].0, parent));
                    process::lemma_child_is_found(links, links[m].0, parent);
                    let i = choose|i: int| 0 <= i < kids.len() && kids[i] == links[m].0;
                    assert(now[order.len() + i] == kids[i]);
                }
            }
        }
    }
}

proof fn lemma_tree(root: u32, links: Seq<(u32, u32)>)
    requires
        tree_of(root, links) is Some,
    ensures
        is_partial_walk(
            root,
            links,
            tree_of(root, links)->0,
            tree_of(root, links)->0.len() as int,
        ),
{
    let n = choose|n: nat| ends_at(root, links, n);
    lemma_steps(root, links, n);
}

/// The tree begins with its root.
pub proof fn law_tree_starts_at_root(root: u32, links: Seq<(u32, u32)>)
    requires
        tree_of(root, links) is Some,
    ensures
        tree_of(root, links)->0.len() > 0,
        tree_of(root, links)->0[0] == root,
{
    lemma_tree(root, links);
}

/// Every process of the tree but the root comes after a parent of it.
pub proof fn law_parents_before_children(root: u32, links: Seq<(u32, u32)>, k: int)
    requires
        tree_of(root, links) is Some,
        0 < k < tree_of(root, links)->0.len(),
    ensures
        exists|j: int|
            0 <= j < k && links.contains(
                (tree_of(root, links)->0[k], #[trigger] tree_of(root, links)->0[j]),
            ),
{
    lemma_tree(root, links);
    assert(process::has_parent_before(links, tree_of(root, links)->0, k, k));
}

/// The tree misses no descendant: a child of one of its processes is one of its processes.
pub proof fn law_tree_is_complete(root: u32, links: Seq<(u32, u32)>, pid: u32, parent: u32)
    requires
        tree_of(root, links) is Some,
        links.contains((pid, parent)),
        tree_of(root, links)->0.contains(parent),
    ensures
        tree_of(root, links)->0.contains(pid),
{
    lemma_tree(root, links);
    let tree = tree_of(root, links)->0;
    let m = choose|m: int| 0 <= m < links.len() && links[m] == (pid, parent);
    let k = choose|k: int| 0 <= k < tree.len() && tree[k] == parent;
    assert(links[m].1 == tree[k]);
}

proof fn lemma_same_walk(root: u32, links: Seq<(u32, u32)>, i: nat)
    requires
        windows::is_partial_tree(root, links, steps(root, links, i), i as int),
        i <= steps(root, links, i).len(),
        windows::walk(links, steps(root, links, i), i as int) == windows::tree_of(root, links),
        process::pids_of(links).no_duplicates(),
        forall|parent: u32|
            windows::tree_of(root, links).contains(parent) ==> !#[trigger] links.contains(
                (root, parent),
            ),
    ensures
        tree_of(root, links) == Some(windows::tree_of(root, links)),
    decreases links.len() + 2 - i,
{
    let order = steps(root, links, i);
    windows::lemma_walk_order_is_short(root, links, order);
    if order.len() <= i {
        lemma_tree_found(root, links, i);
    } else {
        windows::lemma_walk_extends(links, order, i as int, root);
        assert(windows::tree_of(root, links)[i as int] == order[i as int]);
        assert(windows::tree_of(root, links).contains(order[i as int]));
        assert(links == links.subrange(0, links.len() as int));
        windows::lemma_nothing_repeats(root, links, links, order, i as int);
        windows::lemma_step_keeps_tree(root, links, order, i as int);
        lemma_same_walk(root, links, i + 1);
    }
}

/// In a snapshot that lists each process once, and in which the root is no child of a process
/// of its own tree, the walk ends, and no process is met twice: a walk that leaves out repeats
/// finds the same tree.
pub proof fn law_tree_without_repeats(root: u32, links: Seq<(u32, u32)>)
    requires
        process::pids_of(links).no_duplicates(),
        forall|parent: u32|
            windows::tree_of(root, links).contains(parent) ==> !#[trigger] links.contains(
                (root, parent),
            ),
    ensures
        tree_of(root, links) == Some(windows::tree_of(root, links)),
{
    lemma_same_walk(root, links, 0);
}

/// The parent pid in the text of a process's `stat` file: the second word after the last
/// closing bracket.
pub open spec fn stat_parent(stat: Seq<char>) -> Option<u32> {
    match text::after_last(stat, ')') {
        Some(tail) => if text::words(tail).len() >= 2 {
            decimal::u32_of(text::words(tail)[1])
        } else {
            None
        },
        None => None,
    }
}

/// Reads a process's parent pid from the text of its `stat` file. The name of the process can
/// hold spaces and brackets, so only what follows the final closing bracket is read.
pub fn parent_pid(stat: &str) -> (parent: Option<u32>)
    ensures
        parent == stat_parent(stat@),
{
    match text::after_last_char(stat, ')') {
        Some(tail) => {
            let fields = text::split_whitespace(tail.as_str());
            if fields.len() >= 2 {
                assert(text::texts(fields@)[1] == fields@[1]@);
                decimal::parse_u32(fields[1].as_str())
            } else {
                None
            }
        },
        None => None,
    }
}

/// How often a tree is scanned at most while it is frozen.
pub const FREEZE_ROUNDS: u32 = 5;

/// How far the freezing of a tree has come.
#[derive(Clone, Copy, Debug, PartialEq, Eq, Structural)]
pub struct Freeze {
    /// The scans done.
    pub rounds: u32,
    /// The size of the tree at the last of them.
    pub previous: usize,
    /// The tree has stopped growing, or has been scanned often enough.
    pub settled: bool,
}

impl Freeze {
    /// Before the first scan.
    pub open spec fn initial() -> Freeze {
        Freeze { rounds: 0, previous: 0, settled: false }
    }

    /// After a scan that found `size` processes.
    pub open spec fn after_scan(self, size: int) -> Freeze {
        Freeze {
            rounds: (self.rounds + 1) as u32,
            previous: size as usize,
            settled: size == self.previous || self.rounds + 1 >= FREEZE_ROUNDS,
        }
    }

    /// A freeze that goes on has scans left.
    pub open spec fn well_formed(self) -> bool {
        !self.settled ==> self.rounds < FREEZE_ROUNDS
    }

    /// A freeze that has not begun.
    pub fn new() -> (freeze: Freeze)
        ensures
            freeze == Freeze::initial(),
            freeze.well_formed(),
    {
        Freeze { rounds: 0, previous: 0, settled: false }
    }
}

/// How far the killing of a tree has come.
#[derive(Clone, Copy, Debug, PartialEq, Eq, Structural)]
pub struct Kill {
    pub freeze: Freeze,
    /// The kill signals have been handed out.
    pub done: bool,
}

impl Kill {
    /// A kill that has not begun.
    pub fn new() -> (kill: Kill)
        ensures
            kill == (Kill { freeze: Freeze::initial(), done: false }),
            kill.freeze.well_formed(),
    {
        Kill { freeze: Freeze::new(), done: false }
    }
}

/// What came of a round of signals to a tree: the deliveries, and nothing where the snapshot
/// has no tree.
pub open spec fn delivered(list: Option<Vec<Delivery>>) -> Option<Seq<Delivery>> {
    match list {
        Some(list) => Some(list@),
        None => None,
    }
}

/// A signal to every process of a tree, leaves first.
pub open spec fn signals_of(root: u32, links: Seq<(u32, u32)>, signal: Signal) -> Option<
    Seq<Delivery>,
> {
    match tree_of(root, links) {
        Some(tree) => Some(process::leaves_first(tree, signal)),
        None => None,
    }
}

/// One round of freezing a tree: every process found gets a stop signal, and the freeze settles
/// once two scans find as many processes, or after `FREEZE_ROUNDS` of them. Nothing happens
/// where the freeze has settled, or where the snapshot has no tree.
pub open spec fn freeze_round(freeze: Freeze, root: u32, links: Seq<(u32, u32)>) -> (
    Freeze,
    Option<Seq<Delivery>>,
) {
    if freeze.settled {
        (freeze, Some(seq![]))
    } else {
        match tree_of(root, links) {
            Some(tree) => (
                freeze.after_scan(tree.len() as int),
                Some(process::parents_first(tree, Signal::Stop)),
            ),
            None => (freeze, None),
        }
    }
}

/// One round of killing a tree. It is frozen first; then, on one more scan, every process gets
/// a kill signal, leaves first.
pub open spec fn kill_round(kill: Kill, root: u32, links: Seq<(u32, u32)>) -> (
    Kill,
    Option<Seq<Delivery>>,
) {
    if kill.done {
        (kill, Some(seq![]))
    } else if kill.freeze.settled {
        let list = signals_of(root, links, Signal::Kill);
        (Kill { freeze: kill.freeze, done: list is Some }, list)
    } else {
        let (freeze, list) = freeze_round(kill.freeze, root, links);
        (Kill { freeze, done: false }, list)
    }
}

/// Sends `signal` to `root` and every process descended from it, leaves first.
pub fn signal_tree(root: u32, links: &Vec<(u32, u32)>, signal: Signal) -> (list: Option<
    Vec<Delivery>,
>)
    ensures
        delivered(list) == signals_of(root, links@, signal),
{
    match process_tree(root, links) {
        Some(order) => Some(process::deliver(&process::reversed(&order), signal)),
        None => None,
    }
}

/// One round of freezing a tree.
///
/// A running engine can fork a new worker between the scan and the signal. A stopped process
/// can neither fork nor exit and keeps its parent, so scanning again converges on the full
/// tree.
pub fn freeze_tree(freeze: &mut Freeze, root: u32, links: &Vec<(u32, u32)>) -> (list: Option<
    Vec<Delivery>,
>)
    requires
        old(freeze).well_formed(),
    ensures
        final(freeze).well_formed(),
        (*final(freeze), delivered(list)) == freeze_round(*old(freeze), root, links@),
{
    if freeze.settled {
        let none: Vec<Delivery> = Vec::new();
        assert(none@ =~= Seq::<Delivery>::empty());
        return Some(none);
    }
    match process_tree(root, links) {
        Some(order) => {
            let list = process::deliver(&order, Signal::Stop);
            let rounds: u32 = freeze.rounds + 1;
            *freeze = Freeze {
                rounds,
                previous: order.len(),
                settled: order.len() == freeze.previous || rounds >= FREEZE_ROUNDS,
            };
            Some(list)
        },
        None => None,
    }
}

/// One round of pausing a tree, which is freezing it.
pub fn stop_tree(freeze: &mut Freeze, root: u32, links: &Vec<(u32, u32)>) -> (list: Option<
    Vec<Delivery>,
>)
    requires
        old(freeze).well_formed(),
    ensures
        final(freeze).well_formed(),
        (*final(freeze), delivered(list)) == freeze_round(*old(freeze), root, links@),
{
    freeze_tree(freeze, root, links)
}

/// Resumes a frozen tree: every process of it, leaves first.
pub fn cont_tree(root: u32, links: &Vec<(u32, u32)>) -> (list: Option<Vec<Delivery>>)
    ensures
        delivered(list) == signals_of(root, links@, Signal::Continue),
{
    signal_tree(root, links, Signal::Continue)
}

/// One round of killing a tree. It is frozen first, so that nothing can fork away.
pub fn kill_tree(kill: &mut Kill, root: u32, links: &Vec<(u32, u32)>) -> (list: Option<
    Vec<Delivery>,
>)
    requires
        old(kill).freeze.well_formed(),
    ensures
        final(kill).freeze.well_formed(),
        (*final(kill), delivered(list)) == kill_round(*old(kill), root, links@),
{
    if kill.done {
        let none: Vec<Delivery> = Vec::new();
        assert(none@ =~= Seq::<Delivery>::empty());
        return Some(none);
    }
    if kill.freeze.settled {
        let list = signal_tree(root, links, Signal::Kill);
        kill.done = list.is_some();
        return list;
    }
    let mut freeze = kill.freeze;
    let list = freeze_tree(&mut freeze, root, links);
    kill.freeze = freeze;
    list
}

/// The state of a freeze after scans that found so many processes each.
pub open spec fn freeze_after(sizes: Seq<int>) -> Freeze
    decreases sizes.len(),
{
    if sizes.len() == 0 {
        Freeze::initial()
    } else {
        let earlier = freeze_after(sizes.drop_last());
        if earlier.settled {
            earlier
        } else {
            earlier.after_scan(sizes.last())
        }
    }
}

/// Freezing ends: after `FREEZE_ROUNDS` scans at the latest, whatever they find.
pub proof fn law_freeze_ends(sizes: Seq<int>)
    ensures
        freeze_after(sizes).rounds <= FREEZE_ROUNDS,
        freeze_after(sizes).settled || freeze_after(sizes).rounds == sizes.len(),
        sizes.len() >= FREEZE_ROUNDS ==> freeze_after(sizes).settled,
    decreases sizes.len(),
{
    if sizes.len() > 0 {
        law_freeze_ends(sizes.drop_last());
    }
}

/// A tree is never taken for settled on its first scan, since it has at least its root.
pub proof fn law_freeze_scans_twice(root: u32, links: Seq<(u32, u32)>)
    requires
        tree_of(root, links) is Some,
        tree_of(root, links)->0.len() <= usize::MAX,
    ensures
        !freeze_round(Freeze::initial(), root, links).0.settled,
{
    law_tree_starts_at_root(root, links);
}

/// Signalled leaves first, a process but the root gets its signal before a parent of it does.
pub proof fn law_children_signalled_before_parents(
    root: u32,
    links: Seq<(u32, u32)>,
    signal: Signal,
    k: int,
)
    requires
        tree_of(root, links) is Some,
        0 <= k < tree_of(root, links)->0.len() - 1,
    ensures
        exists|j: int|
            k < j < signals_of(root, links, signal)->0.len() && links.contains(
                (
                    signals_of(root, links, signal)->0[k].pid,
                    (#[trigger] signals_of(root, links, signal)->0[j]).pid,
                ),
            ),
{
    let tree = tree_of(root, links)->0;
    let list = signals_of(root, links, signal)->0;
    lemma_tree(root, links);
    process::lemma_reversed_children_first(links, tree, k);
    let j = choose|j: int|
        k < j < tree.len() && links.contains((tree.reverse()[k], #[trigger] tree.reverse()[j]));
    assert(list[k].pid == tree.reverse()[k]);
    assert(list[j].pid == tree.reverse()[j]);
}

/// Resuming reaches what pausing stopped: on the same snapshot, a process is let go on exactly
/// if it was stopped, and as many signals are sent.
pub proof fn law_resume_reaches_what_was_stopped(
    freeze: Freeze,
    root: u32,
    links: Seq<(u32, u32)>,
    pid: u32,
)
    requires
        tree_of(root, links) is Some,
        !freeze.settled,
    ensures
        signals_of(root, links, Signal::Continue)->0.contains(
            Delivery { pid, signal: Signal::Continue },
        ) <==> freeze_round(freeze, root, links).1->0.contains(
            Delivery { pid, signal: Signal::Stop },
        ),
        signals_of(root, links, Signal::Continue)->0.len() == freeze_round(
            freeze,
            root,
            links,
        ).1->0.len(),
{
    let tree = tree_of(root, links)->0;
    let stopped = freeze_round(freeze, root, links).1->0;
    let resumed = signals_of(root, links, Signal::Continue)->0;
    let stop = Delivery { pid, signal: Signal::Stop };
    let resume = Delivery { pid, signal: Signal::Continue };
    if stopped.contains(stop) {
        let i = choose|i: int| 0 <= i < stopped.len() && stopped[i] == stop;
        assert(resumed[tree.len() - 1 - i] == resume);
    }
    if resumed.contains(resume) {
        let i = choose|i: int| 0 <= i < resumed.len() && resumed[i] == resume;
        assert(stopped[tree.len() - 1 - i] == stop);
    }
}

/// What is in the tree is the root or comes down from it: of every set of processes that holds
/// the root and the children of its own, the tree is a part.
pub proof fn law_tree_holds_descendants_only(
    root: u32,
    links: Seq<(u32, u32)>,
    family: Set<u32>,
    k: int,
)
    requires
        tree_of(root, links) is Some,
        family.contains(root),
        forall|i: int|
            0 <= i < links.len() && family.contains((#[trigger] links[i]).1) ==> family.contains(
                links[i].0,
            ),
        0 <= k < tree_of(root, links)->0.len(),
    ensures
        family.contains(tree_of(root, links)->0[k]),
    decreases k,
{
    law_tree_starts_at_root(root, links);
    if k > 0 {
        law_parents_before_children(root, links, k);
        let tree = tree_of(root, links)->0;
        let j = choose|j: int| 0 <= j < k && links.contains((tree[k], #[trigger] tree[j]));
        law_tree_holds_descendants_only(root, links, family, j);
        let m = choose|m: int| 0 <= m < links.len() && links[m] == (tree[k], tree[j]);
        assert(family.contains(links[m].1));
    }
}

/// The tree is found wherever no process is its own descendant: where some rank falls from each
/// parent to its children, the walk ends.
pub proof fn law_tree_is_found(root: u32, links: Seq<(u32, u32)>, rank: spec_fn(u32) -> nat)
    requires
        forall|i: int| 0 <= i < links.len() ==> rank((#[trigger] links[i]).0) < rank(links[i].1),
    ensures
        tree_of(root, links) is Some,
{
    if generation(root, links, rank(root) + 1).len() > 0 {
        let deep = generation(root, links, rank(root) + 1);
        assert(deep.contains(deep[0]));
        lemma_rank_falls(root, links, rank, rank(root) + 1, deep[0]);
    }
    lemma_ended(root, links, rank(root) + 1);
}

proof fn lemma_rank_falls(
    root: u32,
    links: Seq<(u32, u32)>,
    rank: spec_fn(u32) -> nat,
    k: nat,
    pid: u32,
)
    requires
        forall|i: int| 0 <= i < links.len() ==> rank((#[trigger] links[i]).0) < rank(links[i].1),
        generation(root, links, k).contains(pid),
    ensures
        rank(pid) + k <= rank(root),
    decreases k,
{
    if k > 0 {
        let parent = lemma_from_earlier(links, generation(root, links, (k - 1) as nat), pid);
        lemma_rank_falls(root, links, rank, (k - 1) as nat, parent);
        let i = choose|i: int| 0 <= i < links.len() && links[i] == (pid, parent);
        assert(rank(links[i].0) < rank(links[i].1));
    }
}

/// The parent is the second word after the last closing bracket, whatever the name of the
/// process holds, and whatever white space is around it.
pub proof fn law_parent_is_read(
    name: Seq<char>,
    blank: Seq<char>,
    state: Seq<char>,
    between: Seq<char>,
    word: Seq<char>,
    rest: Seq<char>,
)
    requires
        text::is_blank(blank),
        text::is_blank(between),
        between.len() > 0,
        state.len() > 0,
        forall|i: int|
            0 <= i < state.len() ==> !text::is_white_space(#[trigger] state[i]) && state[i] != ')',
        word.len() > 0,
        forall|i: int|
            0 <= i < word.len() ==> !text::is_white_space(#[trigger] word[i]) && word[i] != ')',
        rest.len() > 0 ==> text::is_white_space(rest[0]),
        forall|i: int| 0 <= i < rest.len() ==> rest[i] != ')',
    ensures
        stat_parent(name + seq![')'] + (blank + state + (between + word + rest)))
            == decimal::u32_of(word),
{
    let second = between + word + rest;
    let tail = blank + state + second;
    assert forall|i: int| 0 <= i < tail.len() implies tail[i] != ')' by {
        let a = blank.len() as int;
        let b = a + state.len();
        let c = b + between.len();
        let d = c + word.len();
        if i < a {
            assert(text::is_white_space(blank[i]));
        } else if i < b {
            assert(tail[i] == state[i - a]);
        } else if i < c {
            assert(text::is_white_space(between[i - b]));
        } else if i < d {
            assert(tail[i] == word[i - c]);
        } else {
            assert(tail[i] == rest[i - d]);
        }
    }
    text::law_after_last(name, ')', tail);
    assert(second[0] == between[0]);
    assert(text::is_white_space(between[0]));
    text::law_words(blank, state, second);
    text::law_words(between, word, rest);
    let list = text::words(tail);
    assert(list =~= seq![state] + (seq![word] + text::words(rest)));
    assert(list[1] == word);
}

/// Without a closing bracket, or without two words after the last one, there is no parent.
pub proof fn law_no_parent_is_read(
    name: Seq<char>,
    stat: Seq<char>,
    blank: Seq<char>,
    state: Seq<char>,
    after: Seq<char>,
)
    requires
        forall|i: int| 0 <= i < stat.len() ==> stat[i] != ')',
        forall|i: int|
            0 <= i < state.len() ==> !text::is_white_space(#[trigger] state[i]) && state[i] != ')',
        text::is_blank(blank),
        text::is_blank(after),
    ensures
        stat_parent(stat) is None,
        stat_parent(name + seq![')'] + (blank + state + after)) is None,
{
    text::law_after_last(name, ')', stat);
    let tail = blank + state + after;
    assert forall|i: int| 0 <= i < tail.len() implies tail[i] != ')' by {
        let a = blank.len() as int;
        let b = a + state.len();
        if i < a {
            assert(text::is_white_space(blank[i]));
        } else if i < b {
            assert(tail[i] == state[i - a]);
        } else {
            assert(text::is_white_space(after[i - b]));
        }
    }
    text::law_after_last(name, ')', tail);
    if state.len() > 0 {
        if after.len() > 0 {
            assert(text::is_white_space(after[0]));
        }
        text::law_words(blank, state, after);
        text::law_words(after, state, Seq::empty());
        assert(text::words(tail).len() == 1);
    } else {
        assert forall|i: int| 0 <= i < tail.len() implies text::is_white_space(
            #[trigger] tail[i],
        ) by {
            if i < blank.len() {
                assert(text::is_white_space(blank[i]));
            } else {
                assert(text::is_white_space(after[i - blank.len()]));
            }
        }
        text::law_words(tail, seq!['x'], Seq::empty());
    }
}

/// A freeze goes on exactly as long as each scan finds another number of processes than the one
/// before it, and scans are left.
pub proof fn law_freeze_goes_on_while_the_tree_changes(sizes: Seq<int>)
    requires
        forall|i: int| 0 <= i < sizes.len() ==> 0 < #[trigger] sizes[i] <= usize::MAX,
    ensures
        !freeze_after(sizes).settled <==> sizes.len() < FREEZE_ROUNDS && forall|i: int, j: int|
            0 <= i && j == i + 1 && j < sizes.len() ==> #[trigger] sizes[i] != #[trigger] sizes[j],
        !freeze_after(sizes).settled && sizes.len() > 0 ==> freeze_after(sizes).previous
            == sizes.last(),
        !freeze_after(sizes).settled && sizes.len() == 0 ==> freeze_after(sizes).previous == 0,
    decreases sizes.len(),
{
    if sizes.len() > 0 {
        let earlier = sizes.drop_last();
        assert forall|i: int| 0 <= i < earlier.len() implies 0 < #[trigger] earlier[i]
            <= usize::MAX by {
            assert(earlier[i] == sizes[i]);
        }
        law_freeze_goes_on_while_the_tree_changes(earlier);
        law_freeze_ends(earlier);
        law_freeze_ends(sizes);
        let n = sizes.len() as int;
        if !freeze_after(earlier).settled {
            if !freeze_after(sizes).settled {
                assert forall|i: int, j: int|
                    0 <= i && j == i + 1 && j < sizes.len() implies #[trigger] sizes[i]
                    != #[trigger] sizes[j] by {
                    if j < n - 1 {
                        assert(earlier[i] != earlier[j]);
                    }
                }
            } else if n >= 2 && n < FREEZE_ROUNDS {
                assert(sizes[n - 2] == sizes[n - 1]);
            }
        } else if n - 1 < FREEZE_ROUNDS {
            let (i, j) = choose|i: int, j: int|
                0 <= i && j == i + 1 && j < earlier.len() && #[trigger] earlier[i]
                    == #[trigger] earlier[j];
            assert(sizes[i] == sizes[j]);
        }
    }
}

/// Killing freezes first: until the freeze has settled the tree is stopped, process by process,
/// and nothing is killed; then it is killed, and that is the end.
pub proof fn law_killing_freezes_first(kill: Kill, root: u32, links: Seq<(u32, u32)>)
    requires
        tree_of(root, links) is Some,
        !kill.done,
    ensures
        ({
            let (after, list) = kill_round(kill, root, links);
            let tree = tree_of(root, links)->0;
            &&& list is Some && list->0.len() == tree.len()
            &&& !kill.freeze.settled ==> !after.done && forall|k: int|
                0 <= k < tree.len() ==> #[trigger] list->0[k] == (Delivery {
                    pid: tree[k],
                    signal: Signal::Stop,
                })
            &&& kill.freeze.settled ==> after.done && forall|k: int|
                0 <= k < tree.len() ==> #[trigger] list->0[k] == (Delivery {
                    pid: tree[tree.len() - 1 - k],
                    signal: Signal::Kill,
                })
        }),
        kill_round(Kill { done: true, ..kill }, root, links).1 == Some(Seq::<Delivery>::empty()),
{
}

/// The tree is the root and then, process by process, the children of each process of the tree:
/// no descendant is missing, none comes in another place, and none more or less often than the
/// snapshot lists it.
pub proof fn law_tree_is_root_and_children(root: u32, links: Seq<(u32, u32)>)
    requires
        tree_of(root, links) is Some,
    ensures
        tree_of(root, links)->0 == seq![root] + next_generation(links, tree_of(root, links)->0),
{
    let n = choose|n: nat| ends_at(root, links, n);
    let tree = steps(root, links, n);
    lemma_steps_grow(root, links, tree.len(), n);
    lemma_steps_stay(root, links, tree.len(), n);
    lemma_steps_add_children(root, links, tree.len());
    assert(tree.subrange(0, tree.len() as int) =~= tree);
}

/// Parents and children go together: the children of a list are those of its parts, one after
/// another, and those of one parent are its own.
pub proof fn law_next_generation(links: Seq<(u32, u32)>, parents: Seq<u32>, parent: u32)
    ensures
        next_generation(links, Seq::<u32>::empty()) == Seq::<u32>::empty(),
        next_generation(links, parents.push(parent)) == next_generation(links, parents)
            + process::children_of(links, parent),
{
    assert(parents.push(parent).drop_last() =~= parents);
}

proof fn lemma_steps_grow(root: u32, links: Seq<(u32, u32)>, m: nat, n: nat)
    requires
        m <= n,
    ensures
        steps(root, links, m).len() <= steps(root, links, n).len(),
    decreases n,
{
    if m < n {
        lemma_steps_grow(root, links, m, (n - 1) as nat);
    }
}

proof fn lemma_steps_add_children(root: u32, links: Seq<(u32, u32)>, n: nat)
    requires
        n <= steps(root, links, n).len(),
    ensures
        steps(root, links, n) == seq![root] + next_generation(
            links,
            steps(root, links, n).subrange(0, n as int),
        ),
    decreases n,
{
    let now = steps(root, links, n);
    if n == 0 {
        assert(now.subrange(0, 0) =~= Seq::<u32>::empty());
        assert(seq![root] + next_generation(links, now.subrange(0, 0)) =~= seq![root]);
    } else {
        let before = steps(root, links, (n - 1) as nat);
        if n - 1 >= before.len() {
            assert(false);
        }
        lemma_steps_add_children(root, links, (n - 1) as nat);
        let visited = now.subrange(0, n as int);
        assert(visited.drop_last() =~= before.subrange(0, n - 1));
        assert(visited.last() == before[n - 1]);
        assert(now =~= seq![root] + next_generation(links, visited));
    }
}

/// What came of a round of signals is the list of deliveries as it is.
pub proof fn law_model_of_deliveries(list: Vec<Delivery>)
    ensures
        delivered(Some(list)) == Some(list@),
        delivered(None) is None,
{
}

} // verus!
