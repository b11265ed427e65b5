//! The pointer chase: nodes linked, in a random order, into one cycle that
//! passes through every node, so that each load depends on the one before.

use vstd::prelude::*;
use crate::random::{shuffle, thread_rng};

verus! {

broadcast use vstd::seq_lib::group_to_multiset_ensures;

/// The node numbers `0..n` in ascending order.
pub open spec fn node_ids(n: nat) -> Seq<u64> {
    Seq::new(n, |i: int| i as u64)
}

/// Whether `order` lists every node `0..order.len()` exactly once.
pub open spec fn is_node_order(order: Seq<u64>) -> bool {
    &&& order.len() <= u64::MAX
    &&& order.to_multiset() == node_ids(order.len()).to_multiset()
}

/// Whether `next` sends each node of `order` to the node after it in
/// `order`, and the last one back to the first.
pub open spec fn links_follow(order: Seq<u64>, next: Seq<u64>) -> bool {
    &&& next.len() == order.len()
    &&& forall|i: int|
        0 <= i < order.len() ==> #[trigger] next[order[i] as int] == order[(i + 1) % (order.len() as int)]
}

/// The node reached from `start` after `k` hops along `next`.
pub open spec fn walk(next: Seq<u64>, start: u64, k: nat) -> u64
    decreases k,
{
    if k == 0 {
        start
    } else {
        next[walk(next, start, (k - 1) as nat) as int]
    }
}

/// Whether following `next` from any node passes through every node once
/// before coming back to it: a single cycle through all the nodes.
pub open spec fn is_single_cycle(next: Seq<u64>) -> bool {
    &&& forall|i: int| 0 <= i < next.len() ==> #[trigger] next[i] < next.len()
    &&& forall|s: u64, a: nat, b: nat|
        s < next.len() && a < b < next.len() ==> #[trigger] walk(next, s, a) != #[trigger] walk(next, s, b)
    &&& forall|s: u64| s < next.len() ==> #[trigger] walk(next, s, next.len()) == s
}

proof fn lemma_node_order_facts(order: Seq<u64>)
    requires
        is_node_order(order),
    ensures
        forall|i: int| 0 <= i < order.len() ==> #[trigger] order[i] < order.len(),
        order.no_duplicates(),
        forall|s: u64| s < order.len() ==> #[trigger] order.contains(s),
{
    let n = order.len();
    let ids = node_ids(n);
    assert(ids.no_duplicates());
    ids.lemma_multiset_has_no_duplicates();
    order.lemma_multiset_has_no_duplicates_conv();
    assert forall|i: int| 0 <= i < n implies #[trigger] order[i] < n by {
        assert(order.contains(order[i]));
        assert(ids.to_multiset().count(order[i]) > 0);
        assert(ids.contains(order[i]));
    }
    assert forall|s: u64| s < n implies #[trigger] order.contains(s) by {
        assert(ids[s as int] == s);
        assert(ids.contains(s));
        assert(ids.to_multiset().count(s) > 0);
        assert(order.to_multiset().count(s) > 0);
    }
}

proof fn lemma_mod_small(x: int, n: int)
    requires
        0 <= x < 2 * n,
        n > 0,
    ensures
        x % n == if x < n { x } else { x - n },
{
    if x < n {
        vstd::arithmetic::div_mod::lemma_fundamental_div_mod_converse_mod(x, n, 0, x);
    } else {
        vstd::arithmetic::div_mod::lemma_fundamental_div_mod_converse_mod(x, n, 1, x - n);
    }
}

proof fn lemma_walk_positions(order: Seq<u64>, next: Seq<u64>, i: int, k: nat)
    requires
        links_follow(order, next),
        0 <= i < order.len(),
        k <= order.len(),
    ensures
        walk(next, order[i], k) == order[(i + k) % (order.len() as int)],
    decreases k,
{
    let n = order.len() as int;
    if k == 0 {
        lemma_mod_small(i, n);
    } else {
        lemma_walk_positions(order, next, i, (k - 1) as nat);
        let p = (i + k - 1) % n;
        lemma_mod_small(i + k - 1, n);
        lemma_mod_small(i + k, n);
        lemma_mod_small(p + 1, n);
        assert(next[order[p] as int] == order[(p + 1) % n]);
    }
}

/// Linking the nodes in a listing of all of them, each to the next and the
/// last back to the first, makes a single cycle through every node.
pub proof fn lemma_links_make_single_cycle(order: Seq<u64>, next: Seq<u64>)
    requires
        is_node_order(order),
        links_follow(order, next),
    ensures
        is_single_cycle(next),
{
    let n = order.len() as int;
    lemma_node_order_facts(order);
    assert forall|j: int| 0 <= j < n implies #[trigger] next[j] < n by {
        assert(order.contains(j as u64));
        let i = choose|i: int| 0 <= i < n && order[i] == j as u64;
        lemma_mod_small(i + 1, n);
        assert(next[order[i] as int] == order[(i + 1) % n]);
    }
    assert forall|s: u64, a: nat, b: nat|
        s < n && a < b < n implies #[trigger] walk(next, s, a) != #[trigger] walk(next, s, b) by {
        assert(order.contains(s));
        let i = choose|i: int| 0 <= i < n && order[i] == s;
        lemma_walk_positions(order, next, i, a);
        lemma_walk_positions(order, next, i, b);
        lemma_mod_small(i + a, n);
        lemma_mod_small(i + b, n);
    }
    assert forall|s: u64| s < n implies #[trigger] walk(next, s, n as nat) == s by {
        assert(order.contains(s));
        let i = choose|i: int| 0 <= i < n && order[i] == s;
        lemma_walk_positions(order, next, i, n as nat);
        lemma_mod_small(i + n, n);
    }
}

/// Links each node of `order` to the node after it, and the last to the
/// first.
pub fn link_cycle(order: &Vec<u64>) -> (next: Vec<u64>)
    requires
        is_node_order(order@),
    ensures
        links_follow(order@, next@),
        next@.len() == order@.len(),
        forall|i: int| 0 <= i < order@.len() ==> #[trigger] next@[order@[i] as int] == order@[(i + 1) % (order@.len() as int)],
{
    let n = order.len();
    proof {
        lemma_node_order_facts(order@);
    }
    let mut next: Vec<u64> = Vec::new();
    let mut i: usize = 0;
    while i < n
        invariant
            i <= n == order@.len(),
            next@.len() == i,
        decreases n - i,
    {
        next.push(0);
        i = i + 1;
    }
    let mut i: usize = 0;
    while i < n
        invariant
            i <= n == order@.len(),
            next@.len() == n,
            forall|j: int| 0 <= j < n ==> #[trigger] order@[j] < n,
            order@.no_duplicates(),
            forall|j: int| 0 <= j < i ==> #[trigger] next@[order@[j] as int] == order@[(j + 1) % (n as int)],
        decreases n - i,
    {
        let from = order[i];
        let to = order[(i + 1) % n];
        next.set(from as usize, to);
        assert forall|j: int| 0 <= j < i + 1 implies #[trigger] next@[order@[j] as int] == order@[(j + 1) % (n as int)] by {
            if j < i {
                assert(order@[j] != order@[i as int]);
            }
        }
        i = i + 1;
    }
    next
}

/// The nodes `0..n` in ascending order.
fn node_id_list(n: usize) -> (v: Vec<u64>)
    ensures
        v@ == node_ids(n as nat),
{
    let mut v: Vec<u64> = Vec::new();
    let mut i: usize = 0;
    while i < n
        invariant
            i <= n,
            v@ == node_ids(i as nat),
        decreases n - i,
    {
        v.push(i as u64);
        i = i + 1;
    }
    v
}

/// The nodes `0..n` in a random order (shuffled by `rand`): each node once.
pub fn random_order(n: usize) -> (order: Vec<u64>)
    ensures
        order@.len() == n,
        is_node_order(order@),
{
    let mut order = node_id_list(n);
    let mut rng = thread_rng();
    shuffle(&mut rng, &mut order);
    proof {
        vstd::seq_lib::to_multiset_len(order@);
        vstd::seq_lib::to_multiset_len(node_ids(n as nat));
    }
    order
}

/// The successors of `n` nodes linked, in a random order, into one cycle:
/// node `i` is followed by node `next[i]`.
pub fn random_cycle(n: usize) -> (next: Vec<u64>)
    requires
        n >= 2,
    ensures
        next@.len() == n,
        is_single_cycle(next@),
        exists|order: Seq<u64>| #[trigger] is_node_order(order) && order.len() == n && links_follow(order, next@),
{
    let order = random_order(n);
    let next = link_cycle(&order);
    proof {
        lemma_links_make_single_cycle(order@, next@);
    }
    next
}

/// Every hop of a chase that starts at a node stays on a node: the index a
/// chase reads is always a valid one, however many hops it makes.
pub proof fn lemma_walk_stays_inside(next: Seq<u64>, start: u64, k: nat)
    requires
        is_single_cycle(next),
        start < next.len(),
    ensures
        walk(next, start, k) < next.len(),
    decreases k,
{
    if k > 0 {
        lemma_walk_stays_inside(next, start, (k - 1) as nat);
        let prev = walk(next, start, (k - 1) as nat);
        assert(next[prev as int] < next.len());
    }
}

} // verus!
