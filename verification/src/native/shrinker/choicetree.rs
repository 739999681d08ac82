//! The choice tree for resumable shrink passes.
//!
//! Each pass step makes its decisions through a [`Chooser`]: `choose`
//! picks one of several values that has not exhausted its subtree and that
//! passes a condition, and the tree records every branch taken. When a step
//! finishes, the path it took is marked dead and dead branches are pruned
//! upwards, so later steps of the same pass resume where earlier ones left
//! off instead of repeating them.

use std::collections::HashMap;

use rand::rngs::SmallRng;
use rand::RngExt;
use rand::SeedableRng;
use vstd::prelude::*;

verus! {

#[verifier::external_type_specification]
#[verifier::external_body]
pub struct ExSmallRng(SmallRng);

/// `SmallRng::seed_from_u64`: a generator seeded deterministically.
#[verifier::external_body]
fn seeded_rng(seed: u64) -> SmallRng {
    SmallRng::seed_from_u64(seed)
}

/// `RngExt::random_range` over `0..bound`: some index below `bound`.
#[verifier::external_body]
fn random_below(rng: &mut SmallRng, bound: usize) -> (r: usize)
    requires
        bound > 0,
    ensures
        r < bound,
{
    rng.random_range(0..bound)
}

/// One node of the choice tree.
pub struct TreeNode {
    /// Child nodes keyed by the index chosen at this node.
    pub children: HashMap<usize, TreeNode>,
    /// How many children are still live, once the width of the choice made
    /// here is known. `Some(0)` marks a dead branch.
    pub live_child_count: Option<usize>,
    /// The number of values offered at this node.
    pub n: Option<usize>,
}

/// The live-child count of the node at `path` below `node`, or `None` when
/// there is no such node yet.
pub open spec fn live_at(node: TreeNode, path: Seq<usize>) -> Option<usize>
    decreases path.len(),
{
    if path.len() == 0 {
        node.live_child_count
    } else if node.children@.contains_key(path[0]) {
        live_at(node.children@[path[0]], path.drop_first())
    } else {
        None
    }
}

impl TreeNode {
    /// A fresh node: no children, nothing known.
    pub fn new() -> (t: Self)
        ensures
            t.children@ == Map::<usize, TreeNode>::empty(),
            t.live_child_count is None,
            t.n is None,
    {
        TreeNode { children: HashMap::new(), live_child_count: None, n: None }
    }

    /// Whether no child of this node is live.
    pub fn exhausted(&self) -> (r: bool)
        ensures
            r == (self.live_child_count == Some(0usize)),
    {
        match self.live_child_count {
            Some(k) => k == 0,
            None => false,
        }
    }
}

impl Default for TreeNode {
    fn default() -> (t: Self)
        ensures
            t.children@ == Map::<usize, TreeNode>::empty(),
            t.live_child_count is None,
            t.n is None,
    {
        TreeNode::new()
    }
}

/// What to do at the node a path leads to.
enum NodeAction {
    /// Record the width of the choice made here, unless it is known.
    Init(usize),
    /// Mark the node dead.
    Kill,
    /// Mark child `i` dead and count one live child less.
    KillChild(usize),
    /// Only look: report whether child `i` is dead.
    Look(usize),
    /// Only look at the node itself.
    Peek,
}

/// The live-child count that an action leaves behind.
spec fn live_after(action: NodeAction, live: Option<usize>) -> Option<usize> {
    match action {
        NodeAction::Init(k) => if live is None { Some(k) } else { live },
        NodeAction::Kill => Some(0usize),
        NodeAction::KillChild(_) => Some(
            match live {
                Some(k) => if k > 0 { (k - 1) as usize } else { 0usize },
                None => 0usize,
            },
        ),
        NodeAction::Look(_) => live,
        NodeAction::Peek => live,
    }
}

/// What the node looked like once the action was applied.
struct NodeReport {
    live: Option<usize>,
    child_dead: bool,
}

/// The paths whose node an action may change: the node itself, and for
/// `KillChild(i)` the child `i`.
spec fn touched(action: NodeAction, at: Seq<usize>, q: Seq<usize>) -> bool {
    q == at || (action matches NodeAction::KillChild(i) && q == at.push(i))
}

/// Applies `action` to `node` itself.
fn apply_here(node: &mut TreeNode, action: &NodeAction) -> (r: NodeReport)
    ensures
        forall|q: Seq<usize>|
            !touched(*action, Seq::<usize>::empty(), q) ==> #[trigger] live_at(*final(node), q) == live_at(
                *old(node),
                q,
            ),
        final(node).live_child_count == live_after(*action, old(node).live_child_count),
        r.live == final(node).live_child_count,
        *action matches NodeAction::KillChild(i) ==> live_at(*final(node), seq![i]) == Some(0usize),
        *action matches NodeAction::Look(i) ==> r.child_dead == (live_at(*old(node), seq![i]) == Some(0usize)),
{
    broadcast use vstd::std_specs::hash::group_hash_axioms;
    match action {
        NodeAction::Init(k) => {
            let ghost old_node = *node;
            if node.live_child_count.is_none() {
                node.live_child_count = Some(*k);
                node.n = Some(*k);
            }
            proof {
                assert forall|q: Seq<usize>|
                    !touched(*action, Seq::<usize>::empty(), q) implies #[trigger] live_at(*node, q) == live_at(
                    old_node,
                    q,
                ) by {
                    if q.len() > 0 {
                        lemma_same_children(*node, old_node, q);
                    } else {
                        assert(q =~= Seq::<usize>::empty());
                    }
                }
            }
            NodeReport { live: node.live_child_count, child_dead: false }
        },
        NodeAction::Kill => {
            let ghost old_node = *node;
            node.live_child_count = Some(0);
            proof {
                assert forall|q: Seq<usize>|
                    !touched(*action, Seq::<usize>::empty(), q) implies #[trigger] live_at(*node, q) == live_at(
                    old_node,
                    q,
                ) by {
                    if q.len() > 0 {
                        lemma_same_children(*node, old_node, q);
                    } else {
                        assert(q =~= Seq::<usize>::empty());
                    }
                }
            }
            NodeReport { live: node.live_child_count, child_dead: false }
        },
        NodeAction::KillChild(i) => {
            let ghost old_node = *node;
            let mut child = match node.children.remove(i) {
                Some(c) => c,
                None => TreeNode::new(),
            };
            let ghost old_child = child;
            child.live_child_count = Some(0);
            node.children.insert(*i, child);
            let live = match node.live_child_count {
                Some(k) => if k > 0 { k - 1 } else { 0 },
                None => 0,
            };
            node.live_child_count = Some(live);
            proof {
                reveal_with_fuel(live_at, 2);
                assert(seq![*i].drop_first() =~= Seq::<usize>::empty());
                assert(node.children@.contains_key(*i));
                assert(live_at(*node, seq![*i]) == live_at(node.children@[*i], Seq::<usize>::empty()));
                assert forall|q: Seq<usize>|
                    !touched(*action, Seq::<usize>::empty(), q) implies #[trigger] live_at(*node, q) == live_at(
                    old_node,
                    q,
                ) by {
                    if q.len() > 0 && q[0] == *i {
                        assert(q.drop_first().len() > 0) by {
                            if q.drop_first().len() == 0 {
                                assert(q =~= Seq::<usize>::empty().push(*i));
                            }
                        }
                        lemma_same_children(node.children@[*i], old_child, q.drop_first());
                        if !old_node.children@.contains_key(*i) {
                            lemma_fresh_node_live(old_child, q.drop_first());
                        }
                    } else if q.len() > 0 {
                        assert(node.children@.contains_key(q[0]) == old_node.children@.contains_key(q[0]));
                        if node.children@.contains_key(q[0]) {
                            assert(node.children@[q[0]] == old_node.children@[q[0]]);
                        }
                    } else {
                        assert(q =~= Seq::<usize>::empty());
                    }
                }
            }
            NodeReport { live: node.live_child_count, child_dead: false }
        },
        NodeAction::Peek => {
            NodeReport { live: node.live_child_count, child_dead: false }
        },
        NodeAction::Look(i) => {
            let dead = match node.children.get(i) {
                Some(c) => c.exhausted(),
                None => false,
            };
            proof {
                reveal_with_fuel(live_at, 2);
                assert(seq![*i].drop_first() =~= Seq::<usize>::empty());
                if node.children@.contains_key(*i) {
                    assert(live_at(*node, seq![*i]) == live_at(node.children@[*i], Seq::<usize>::empty()));
                }
            }
            NodeReport { live: node.live_child_count, child_dead: dead }
        },
    }
}

/// Applies `action` to the node that `path[depth..]` leads to below `node`,
/// creating the nodes along the way.
fn update_at(node: &mut TreeNode, path: &[usize], depth: usize, action: &NodeAction) -> (r: NodeReport)
    requires
        depth <= path@.len(),
    ensures
        live_at(*final(node), path@.skip(depth as int)) == live_after(
            *action,
            live_at(*old(node), path@.skip(depth as int)),
        ),
        r.live == live_at(*final(node), path@.skip(depth as int)),
        *action matches NodeAction::KillChild(i) ==> live_at(*final(node), path@.skip(depth as int).push(i))
            == Some(0usize),
        *action matches NodeAction::Look(i) ==> r.child_dead == (live_at(
            *old(node),
            path@.skip(depth as int).push(i),
        ) == Some(0usize)),
        forall|q: Seq<usize>|
            !touched(*action, path@.skip(depth as int), q) ==> #[trigger] live_at(*final(node), q) == live_at(
                *old(node),
                q,
            ),
    decreases path@.len() - depth,
{
    broadcast use vstd::std_specs::hash::group_hash_axioms;
    if depth == path.len() {
        proof {
            assert(path@.skip(depth as int) =~= Seq::<usize>::empty());
            if let NodeAction::KillChild(i) = *action {
                assert(path@.skip(depth as int).push(i) =~= seq![i]);
            }
            if let NodeAction::Look(i) = *action {
                assert(path@.skip(depth as int).push(i) =~= seq![i]);
            }
        }
        return apply_here(node, action);
    }
    let key = path[depth];
    let ghost old_node = *node;
    let mut child = match node.children.remove(&key) {
        Some(c) => c,
        None => TreeNode::new(),
    };
    let ghost old_child = child;
    let r = update_at(&mut child, path, depth + 1, action);
    node.children.insert(key, child);
    proof {
        let rest = path@.skip(depth as int);
        assert(rest.drop_first() =~= path@.skip(depth + 1));
        assert(rest[0] == key);
        if old_node.children@.contains_key(key) {
            assert(old_child == old_node.children@[key]);
        } else {
            assert(live_at(old_child, path@.skip(depth + 1)) == live_at(old_node, rest)) by {
                lemma_fresh_node_live(old_child, path@.skip(depth + 1));
            }
        }
        if let NodeAction::KillChild(i) = *action {
            assert(rest.push(i).drop_first() =~= path@.skip(depth + 1).push(i));
            assert(rest.push(i)[0] == key);
        }
        if let NodeAction::Look(i) = *action {
            assert(rest.push(i).drop_first() =~= path@.skip(depth + 1).push(i));
            assert(rest.push(i)[0] == key);
            if !old_node.children@.contains_key(key) {
                lemma_fresh_node_live(old_child, path@.skip(depth + 1).push(i));
            }
        }
        assert forall|q: Seq<usize>| !touched(*action, rest, q) implies #[trigger] live_at(*node, q) == live_at(
            old_node,
            q,
        ) by {
            if q.len() > 0 && q[0] == key {
                assert(!touched(*action, path@.skip(depth + 1), q.drop_first())) by {
                    if q.drop_first() == path@.skip(depth + 1) {
                        lemma_head_tail(q, rest);
                    }
                    if let NodeAction::KillChild(i) = *action {
                        if q.drop_first() == path@.skip(depth + 1).push(i) {
                            lemma_head_tail(q, rest.push(i));
                        }
                    }
                }
                assert(live_at(*node, q) == live_at(child, q.drop_first()));
                if !old_node.children@.contains_key(key) {
                    lemma_fresh_node_live(old_child, q.drop_first());
                }
            }
        }
    }
    r
}

/// Two nodes with the same children agree everywhere below themselves.
proof fn lemma_same_children(a: TreeNode, b: TreeNode, q: Seq<usize>)
    requires
        a.children@ == b.children@,
        q.len() > 0,
    ensures
        live_at(a, q) == live_at(b, q),
{
}

/// Sequences with the same head and the same tail are equal.
proof fn lemma_head_tail(a: Seq<usize>, b: Seq<usize>)
    requires
        a.len() > 0,
        b.len() > 0,
        a[0] == b[0],
        a.drop_first() == b.drop_first(),
    ensures
        a == b,
{
    assert(a.drop_first().len() == a.len() - 1);
    assert(b.drop_first().len() == b.len() - 1);
    assert(a.len() == b.len());
    assert forall|j: int| 0 <= j < a.len() implies a[j] == b[j] by {
        if j > 0 {
            assert(a[j] == a.drop_first()[j - 1]);
            assert(b[j] == b.drop_first()[j - 1]);
        }
    }
    assert(a =~= b);
}

/// A fresh node has nothing below it.
proof fn lemma_fresh_node_live(t: TreeNode, path: Seq<usize>)
    requires
        t.children@ == Map::<usize, TreeNode>::empty(),
        t.live_child_count is None,
    ensures
        live_at(t, path) is None,
{
}

/// The root of a sequence of pass steps.
pub struct ChoiceTree {
    pub root: TreeNode,
}

impl ChoiceTree {
    pub fn new() -> (t: Self)
        ensures
            t.root.children@ == Map::<usize, TreeNode>::empty(),
            t.root.live_child_count is None,
            t.root.n is None,
    {
        ChoiceTree { root: TreeNode::new() }
    }

    /// Whether every branch through the tree has been exhausted.
    pub fn exhausted(&self) -> (r: bool)
        ensures
            r == (self.root.live_child_count == Some(0usize)),
    {
        self.root.exhausted()
    }
}

impl Default for ChoiceTree {
    fn default() -> (t: Self)
        ensures
            t.root.children@ == Map::<usize, TreeNode>::empty(),
            t.root.live_child_count is None,
            t.root.n is None,
    {
        ChoiceTree::new()
    }
}

/// Raised when a step reaches a node with no live, acceptable choice.
pub struct DeadBranch;

/// `v` lists each of `0..n` exactly once.
pub open spec fn is_order_of(v: Seq<usize>, n: nat) -> bool {
    &&& v.len() == n
    &&& v.no_duplicates()
    &&& forall|k: int| 0 <= k < v.len() ==> v[k] < n
}

/// Whether the node at `q` below `root` is a dead branch.
pub open spec fn dead_at(root: TreeNode, q: Seq<usize>) -> bool {
    live_at(root, q) == Some(0usize)
}

/// A live-child count with one child less (never below zero).
pub open spec fn one_less(live: Option<usize>) -> Option<usize> {
    Some(
        match live {
            Some(k) => if k > 0 { (k - 1) as usize } else { 0usize },
            None => 0usize,
        },
    )
}

/// The live-child count a chooser starts from at the node `path` when it
/// is offered `n` values: the recorded count, or `n` at a new node.
pub open spec fn count_at_start(root: TreeNode, path: Seq<usize>, n: nat) -> nat {
    match live_at(root, path) {
        Some(k) => k as nat,
        None => n,
    }
}

/// How many of the children `o` of the node at `path` are not dead.
pub open spec fn nondead_count(root: TreeNode, path: Seq<usize>, o: Seq<usize>) -> nat
    decreases o.len(),
{
    if o.len() == 0 {
        0
    } else {
        nondead_count(root, path, o.drop_last()) + if dead_at(root, path.push(o.last())) {
            0nat
        } else {
            1nat
        }
    }
}

/// Whether a chooser at `path` passed over child `j` without taking it:
/// the child was dead, or `condition` refused its value.
pub open spec fn passed_over<T, C: Fn(&T) -> bool>(
    root: TreeNode,
    path: Seq<usize>,
    values: Seq<T>,
    condition: C,
    j: usize,
) -> bool {
    dead_at(root, path.push(j)) || condition.ensures((&values[j as int],), false)
}

/// Counting a prefix of `o` gives at most the count of `o`, and strictly
/// less when a child past the prefix is live.
proof fn lemma_nondead_prefix(root: TreeNode, path: Seq<usize>, o: Seq<usize>, m: int, j: int)
    requires
        0 <= m <= o.len(),
    ensures
        nondead_count(root, path, o.take(m)) <= nondead_count(root, path, o),
        m <= j < o.len() && !dead_at(root, path.push(o[j])) ==> nondead_count(root, path, o.take(m))
            < nondead_count(root, path, o),
    decreases o.len(),
{
    if m < o.len() {
        assert(o.drop_last().take(m) =~= o.take(m));
        lemma_nondead_prefix(root, path, o.drop_last(), m, j);
        if 0 <= j < o.len() - 1 {
            assert(o.drop_last()[j] == o[j]);
        }
    } else {
        assert(o.take(m) =~= o);
    }
}

/// The tree `t` is `t0` after the path `c` was marked dead and dead
/// branches were pruned upwards to depth `d`: the leaf is dead, every node
/// on the path from depth `d` down counts one live child less than it did,
/// the nodes strictly between are dead (which is why pruning went on past
/// them), pruning stopped at the root or at a node that is still live, and
/// nothing else changed.
pub open spec fn pruned_to(t0: TreeNode, c: Seq<usize>, d: int, t: TreeNode) -> bool {
    &&& 0 <= d <= c.len()
    &&& dead_at(t, c)
    &&& forall|j: int| d <= j < c.len() ==> #[trigger] live_at(t, c.take(j)) == one_less(live_at(t0, c.take(j)))
    &&& forall|j: int| d < j < c.len() ==> #[trigger] dead_at(t, c.take(j))
    &&& (d == 0 || !dead_at(t, c.take(d)))
    &&& forall|q: Seq<usize>|
        (forall|j: int| d <= j <= c.len() ==> q != #[trigger] c.take(j)) ==> #[trigger] live_at(t, q) == live_at(
            t0,
            q,
        )
}

/// `hi - 1` down to `lo`.
pub open spec fn descending(lo: nat, hi: nat) -> Seq<usize> {
    Seq::new((hi - lo) as nat, |k: int| (hi - 1 - k) as usize)
}

/// The order a prefix selection tries at `depth` among `n` values: from the
/// prefix's choice (capped at `n - 1`) down to 0, then from `n - 1` down
/// to just above it; past the prefix, from `n - 1` down to 0.
pub open spec fn spec_prefix_order(prefix: Seq<usize>, depth: nat, n: nat) -> Seq<usize> {
    if n == 0 {
        Seq::empty()
    } else if depth < prefix.len() {
        let i: nat = if prefix[depth as int] < n - 1 { prefix[depth as int] as nat } else { (n - 1) as nat };
        descending(0, i + 1) + descending(i + 1, n)
    } else {
        descending(0, n)
    }
}

/// The order in which a chooser tries the values it is offered.
pub enum SelectionOrder {
    /// Resume from a previously explored path.
    Prefix(Vec<usize>),
    /// Uniformly random orders.
    Random(SmallRng),
}

/// A selection order that starts from `prefix`, prefers moving towards zero,
/// then wraps around to the right.
pub fn prefix_selection_order(prefix: Vec<usize>) -> (r: SelectionOrder)
    ensures
        r matches SelectionOrder::Prefix(p) && p@ == prefix@,
{
    SelectionOrder::Prefix(prefix)
}

/// A uniformly random selection order seeded by `seed`.
pub fn random_selection_order(seed: u64) -> (r: SelectionOrder)
    ensures
        r is Random,
{
    SelectionOrder::Random(seeded_rng(seed))
}

/// Appends `hi - 1` down to `lo`.
fn push_descending(out: &mut Vec<usize>, lo: usize, hi: usize)
    requires
        lo <= hi,
    ensures
        final(out)@ == old(out)@ + descending(lo as nat, hi as nat),
{
    let mut k = hi;
    while k > lo
        invariant
            lo <= k <= hi,
            out@ == old(out)@ + descending(k as nat, hi as nat),
        decreases k - lo,
    {
        k -= 1;
        out.push(k);
        proof {
            assert(descending(k as nat, hi as nat) =~= descending((k + 1) as nat, hi as nat).push(k));
        }
    }
}

proof fn lemma_descending_order(lo: nat, mid: nat, hi: nat)
    requires
        lo <= mid <= hi <= usize::MAX,
    ensures
        (descending(lo, mid) + descending(mid, hi)).no_duplicates(),
        forall|k: int|
            0 <= k < (descending(lo, mid) + descending(mid, hi)).len() ==> lo <= #[trigger] (descending(lo, mid)
                + descending(mid, hi))[k] < hi,
{
    let s = descending(lo, mid) + descending(mid, hi);
    assert forall|a: int, b: int| 0 <= a < b < s.len() implies s[a] != s[b] by {
        if a < mid - lo {
            assert(s[a] == descending(lo, mid)[a]);
        } else {
            assert(s[a] == descending(mid, hi)[a - (mid - lo)]);
        }
        if b < mid - lo {
            assert(s[b] == descending(lo, mid)[b]);
        } else {
            assert(s[b] == descending(mid, hi)[b - (mid - lo)]);
        }
    }
}

impl SelectionOrder {
    /// The indices to try, among `n` values offered at `depth`: each of
    /// `0..n` exactly once.
    pub fn order(&mut self, depth: usize, n: usize) -> (r: Vec<usize>)
        ensures
            is_order_of(r@, n as nat),
            *old(self) matches SelectionOrder::Prefix(p) ==> {
                &&& r@ == spec_prefix_order(p@, depth as nat, n as nat)
                &&& *final(self) == *old(self)
            },
            *old(self) is Random ==> *final(self) is Random,
    {
        match self {
            SelectionOrder::Prefix(prefix) => {
                let mut out: Vec<usize> = Vec::new();
                if n == 0 {
                    return out;
                }
                if depth < prefix.len() {
                    let i = if prefix[depth] < n - 1 { prefix[depth] } else { n - 1 };
                    push_descending(&mut out, 0, i + 1);
                    push_descending(&mut out, i + 1, n);
                    proof {
                        lemma_descending_order(0, (i + 1) as nat, n as nat);
                    }
                } else {
                    push_descending(&mut out, 0, n);
                    proof {
                        lemma_descending_order(0, n as nat, n as nat);
                        assert(descending(n as nat, n as nat) =~= Seq::<usize>::empty());
                        assert(out@ =~= descending(0, n as nat) + descending(n as nat, n as nat));
                    }
                }
                out
            },
            SelectionOrder::Random(rng) => {
                let mut pending: Vec<usize> = Vec::new();
                push_descending(&mut pending, 0, n);
                proof {
                    lemma_descending_order(0, n as nat, n as nat);
                    assert(descending(n as nat, n as nat) =~= Seq::<usize>::empty());
                    assert(pending@ =~= descending(0, n as nat) + descending(n as nat, n as nat));
                }
                let mut out: Vec<usize> = Vec::new();
                while pending.len() > 0
                    invariant
                        out@.len() + pending@.len() == n,
                        (out@ + pending@).no_duplicates(),
                        forall|k: int| 0 <= k < (out@ + pending@).len() ==> #[trigger] (out@ + pending@)[k] < n,
                    decreases pending@.len(),
                {
                    let idx = random_below(rng, pending.len());
                    let ghost before = out@ + pending@;
                    let x = pending.remove(idx);
                    out.push(x);
                    proof {
                        let after = out@ + pending@;
                        let o = out@.len() - 1;
                        assert forall|k: int| 0 <= k < after.len() implies #[trigger] after[k] == before[
                            if k < o { k } else if k == o { o + idx } else if k <= o + idx { k - 1 } else { k }
                        ] by {}
                        assert forall|a: int, b: int| 0 <= a < b < after.len() implies after[a] != after[b] by {
                            let fa = if a < o { a } else if a == o { o + idx } else if a <= o + idx { a - 1 } else { a };
                            let fb = if b < o { b } else if b == o { o + idx } else if b <= o + idx { b - 1 } else { b };
                            assert(after[a] == before[fa]);
                            assert(after[b] == before[fb]);
                        }
                    }
                }
                proof {
                    assert(out@ + pending@ =~= out@);
                }
                out
            },
        }
    }
}

/// Makes the decisions of one pass step and records them in the tree.
pub struct Chooser {
    tree: ChoiceTree,
    choices: Vec<usize>,
    selection_order: SelectionOrder,
}

impl Chooser {
    /// The tree the decisions are recorded in.
    pub closed spec fn spec_tree(&self) -> ChoiceTree {
        self.tree
    }

    /// The decisions made so far.
    pub closed spec fn spec_choices(&self) -> Seq<usize> {
        self.choices@
    }

    /// The order in which the chooser tries values.
    pub closed spec fn spec_order(&self) -> SelectionOrder {
        self.selection_order
    }

    fn new(tree: ChoiceTree, selection_order: SelectionOrder) -> (c: Self)
        ensures
            c.spec_tree() == tree,
            c.spec_choices() == Seq::<usize>::empty(),
            c.spec_order() == selection_order,
    {
        Chooser { tree, choices: Vec::new(), selection_order }
    }

    /// Picks one of `values` that passes `condition` and whose subtree is
    /// still live, trying them in the selection order, and records the
    /// choice. A value whose subtree is dead is skipped; a value that
    /// `condition` refuses has its subtree marked dead, and the node counts
    /// one live child less. When the count reaches zero or the values run
    /// out, the node is marked dead and the step has hit a dead branch.
    ///
    /// In the order `o` the values were tried in (the prefix order for a
    /// prefix selection): `Ok` carries the value at the first position whose
    /// subtree was live and that `condition` accepted, every earlier one
    /// having been passed over and now being dead; `Err` comes only when
    /// each value tried was passed over and either all were tried or the
    /// node's count of live children ran out. So where the node's count is
    /// no smaller than its number of live children (as at a new node) and
    /// some live value cannot be refused, the result is `Ok`.
    pub fn choose_from<T: Clone, C: Fn(&T) -> bool>(&mut self, values: &[T], condition: C) -> (r: Result<T, DeadBranch>)
        requires
            forall|k: int| 0 <= k < values@.len() ==> condition.requires((&values@[k],)),
        ensures
            exists|o: Seq<usize>|
                #![trigger is_order_of(o, values@.len() as nat)]
                {
                    let path = old(self).spec_choices();
                    let root0 = old(self).spec_tree().root;
                    let root = final(self).spec_tree().root;
                    let n = values@.len() as nat;
                    &&& is_order_of(o, values@.len() as nat)
                    &&& old(self).spec_order() matches SelectionOrder::Prefix(p) ==> o == spec_prefix_order(
                        p@,
                        path.len(),
                        n,
                    )
                    &&& match r {
                        Ok(v) => exists|m: int|
                            #![trigger o[m]]
                            {
                                &&& 0 <= m < o.len()
                                &&& final(self).spec_choices() == path.push(o[m])
                                &&& condition.ensures((&values@[o[m] as int],), true)
                                &&& cloned::<T>(values@[o[m] as int], v)
                                &&& !dead_at(root0, path.push(o[m]))
                                &&& forall|m2: int| 0 <= m2 < m ==> #[trigger] passed_over(root0, path, values@, condition, o[m2])
                                &&& forall|m2: int| 0 <= m2 < m ==> #[trigger] dead_at(root, path.push(o[m2]))
                            },
                        Err(_) => {
                            &&& final(self).spec_choices() == path
                            &&& dead_at(root, path)
                            &&& exists|m: int|
                                #![trigger o.take(m)]
                                {
                                    &&& 0 <= m <= o.len()
                                    &&& (m == o.len() || nondead_count(root0, path, o.take(m)) >= count_at_start(
                                        root0,
                                        path,
                                        n,
                                    ))
                                    &&& forall|m2: int| 0 <= m2 < m ==> #[trigger] passed_over(root0, path, values@, condition, o[m2])
                                    &&& forall|m2: int| 0 <= m2 < m ==> #[trigger] dead_at(root, path.push(o[m2]))
                                }
                        },
                    }
                    &&& (count_at_start(root0, path, n) >= nondead_count(root0, path, o) && exists|m: int|
                        0 <= m < o.len() && !#[trigger] passed_over(root0, path, values@, condition, o[m])) ==> r is Ok
                },
    {
        let path = copy_path(self.choices.as_slice());
        proof {
            assert(path@.skip(0) =~= path@);
        }
        let ghost root0 = self.tree.root;
        let ghost n = values@.len() as nat;
        let ghost l0 = count_at_start(root0, path@, n);
        update_at(&mut self.tree.root, path.as_slice(), 0, &NodeAction::Init(values.len()));
        if values.len() == 0 {
            update_at(&mut self.tree.root, path.as_slice(), 0, &NodeAction::Kill);
            proof {
                let o = Seq::<usize>::empty();
                assert(is_order_of(o, n));
                assert(o.take(0) =~= o);
            }
            return Err(DeadBranch);
        }
        let depth = self.choices.len();
        let order = self.selection_order.order(depth, values.len());
        let ghost o = order@;
        let ghost mut kills: nat = 0;
        let mut k: usize = 0;
        proof {
            assert(o.take(0) =~= Seq::<usize>::empty());
        }
        while k < order.len()
            invariant
                is_order_of(order@, values@.len() as nat),
                o == order@,
                n == values@.len(),
                l0 == count_at_start(root0, path@, n),
                0 <= k <= o.len(),
                path@ == self.choices@,
                self.choices@ == old(self).choices@,
                root0 == old(self).tree.root,
                path@.skip(0) == path@,
                kills <= l0,
                old(self).selection_order matches SelectionOrder::Prefix(p) ==> o == spec_prefix_order(
                    p@,
                    path@.len(),
                    n,
                ),
                kills == nondead_count(root0, path@, o.take(k as int)),
                live_at(self.tree.root, path@) == Some((l0 - kills) as usize),
                forall|m2: int| k <= m2 < o.len() ==> #[trigger] live_at(self.tree.root, path@.push(o[m2]))
                    == live_at(root0, path@.push(o[m2])),
                forall|m2: int| 0 <= m2 < k ==> #[trigger] passed_over(root0, path@, values@, condition, o[m2]),
                forall|m2: int| 0 <= m2 < k ==> #[trigger] dead_at(self.tree.root, path@.push(o[m2])),
                forall|q: Seq<usize>| q.len() > path@.len() && q.subrange(0, path@.len() as int) == path@
                    && live_at(root0, q) == Some(0usize) ==> #[trigger] live_at(self.tree.root, q) == Some(0usize),
                forall|q: Seq<usize>| q.len() > path@.len() && q.subrange(0, path@.len() as int) == path@
                    && live_at(self.tree.root, q) != Some(0usize) ==> #[trigger] live_at(root0, q) != Some(0usize),
                forall|j: int| 0 <= j < values@.len() ==> condition.requires((&values@[j],)),
            ensures
                k == o.len() || kills == l0,
            decreases order@.len() - k,
        {
            let i = order[k];
            proof {
                assert(o.take(k + 1).drop_last() =~= o.take(k as int));
                assert(o.take(k + 1).last() == o[k as int]);
                assert(live_at(self.tree.root, path@.push(o[k as int])) == live_at(root0, path@.push(o[k as int])));
            }
            let ghost unlooked = self.tree.root;
            let report = update_at(&mut self.tree.root, path.as_slice(), 0, &NodeAction::Look(i));
            proof {
                assert forall|q: Seq<usize>| q != path@ implies #[trigger] live_at(self.tree.root, q) == live_at(
                    unlooked,
                    q,
                ) by {
                    assert(!touched(NodeAction::Look(i), path@.skip(0), q));
                }
                assert forall|m2: int| 0 <= m2 < o.len() implies #[trigger] live_at(self.tree.root, path@.push(o[m2]))
                    == live_at(unlooked, path@.push(o[m2])) by {
                    assert(path@.push(o[m2]) != path@) by {
                        assert(path@.push(o[m2]).len() != path@.len());
                    }
                }
                assert forall|m2: int| 0 <= m2 < k implies #[trigger] dead_at(self.tree.root, path@.push(o[m2])) by {
                    assert(dead_at(unlooked, path@.push(o[m2])));
                    assert(live_at(self.tree.root, path@.push(o[m2])) == live_at(unlooked, path@.push(o[m2])));
                }
                assert forall|q: Seq<usize>| q.len() > path@.len() && q.subrange(0, path@.len() as int) == path@
                    && live_at(root0, q) == Some(0usize) implies #[trigger] live_at(self.tree.root, q) == Some(0usize) by {
                    assert(live_at(unlooked, q) == Some(0usize));
                }
                assert forall|q: Seq<usize>| q.len() > path@.len() && q.subrange(0, path@.len() as int) == path@
                    && live_at(self.tree.root, q) != Some(0usize) implies #[trigger] live_at(root0, q) != Some(0usize) by {
                    assert(live_at(unlooked, q) != Some(0usize));
                }
            }
            match report.live {
                Some(live) => {
                    if live == 0 {
                        break;
                    }
                },
                None => {},
            }
            if report.child_dead {
                proof {
                    assert(dead_at(root0, path@.push(o[k as int])));
                    assert(passed_over(root0, path@, values@, condition, o[k as int]));
                    assert(live_at(self.tree.root, path@.push(o[k as int])) == live_at(unlooked, path@.push(o[k as int])));
                    assert(dead_at(self.tree.root, path@.push(o[k as int])));
                }
                k += 1;
                continue;
            }
            let accepted = condition(&values[i]);
            if !accepted {
                let ghost before = self.tree.root;
                update_at(&mut self.tree.root, path.as_slice(), 0, &NodeAction::KillChild(i));
                proof {
                    kills = kills + 1;
                    assert(live_at(before, path@.push(o[k as int])) == live_at(unlooked, path@.push(o[k as int])));
                    assert(!dead_at(root0, path@.push(o[k as int])));
                    assert(passed_over(root0, path@, values@, condition, o[k as int]));
                    assert forall|m2: int| 0 <= m2 < o.len() && m2 != k implies #[trigger] live_at(
                        self.tree.root,
                        path@.push(o[m2]),
                    ) == live_at(before, path@.push(o[m2])) by {
                        assert(o[m2] != o[k as int]);
                        assert(path@.push(o[m2]) != path@.push(i)) by {
                            assert(path@.push(o[m2])[path@.len() as int] != path@.push(i)[path@.len() as int]);
                        }
                        assert(path@.push(o[m2]) != path@) by {
                            assert(path@.push(o[m2]).len() != path@.len());
                        }
                    }
                    assert forall|m2: int| 0 <= m2 < k + 1 implies #[trigger] dead_at(self.tree.root, path@.push(o[m2])) by {
                        if m2 < k {
                            assert(dead_at(before, path@.push(o[m2])));
                            assert(live_at(self.tree.root, path@.push(o[m2])) == live_at(before, path@.push(o[m2])));
                        }
                    }
                    assert forall|q: Seq<usize>| q.len() > path@.len() && q.subrange(0, path@.len() as int) == path@
                        && live_at(root0, q) == Some(0usize) implies #[trigger] live_at(self.tree.root, q) == Some(0usize) by {
                        assert(q != path@);
                        if q != path@.push(i) {
                            assert(live_at(before, q) == Some(0usize));
                        }
                    }
                    assert forall|q: Seq<usize>| q.len() > path@.len() && q.subrange(0, path@.len() as int) == path@
                        && live_at(self.tree.root, q) != Some(0usize) implies #[trigger] live_at(root0, q) != Some(0usize) by {
                        assert(q != path@);
                        assert(q != path@.push(i));
                        assert(live_at(before, q) != Some(0usize));
                    }
                }
                k += 1;
                continue;
            }
            proof {
                let q = path@.push(i);
                assert(q.subrange(0, path@.len() as int) =~= path@);
                assert(live_at(self.tree.root, q) != Some(0usize));
                assert(live_at(root0, q) != Some(0usize));
            }
            self.choices.push(i);
            let v = values[i].clone();
            proof {
                let w = i as int;
                assert(cloned::<T>(values@[w], v));
                assert(self.spec_choices() == old(self).spec_choices().push(w as usize));
                let m = k as int;
                assert(o[m] == i);
                assert(is_order_of(o, values@.len() as nat));
                assert(self.spec_choices() == path@.push(o[m]));
                assert(condition.ensures((&values@[o[m] as int],), true));
                assert(forall|m2: int| 0 <= m2 < m ==> #[trigger] passed_over(root0, path@, values@, condition, o[m2]));
                assert(forall|m2: int| 0 <= m2 < m ==> #[trigger] dead_at(self.tree.root, path@.push(o[m2])));
                assert(!dead_at(root0, path@.push(o[m])));
                assert(old(self).spec_order() matches SelectionOrder::Prefix(p) ==> o == spec_prefix_order(
                    p@,
                    path@.len(),
                    n,
                ));
            }
            return Ok(v);
        }
        let ghost before = self.tree.root;
        update_at(&mut self.tree.root, path.as_slice(), 0, &NodeAction::Kill);
        proof {
            let m = k as int;
            assert forall|m2: int| 0 <= m2 < m implies #[trigger] dead_at(self.tree.root, path@.push(o[m2])) by {
                assert(path@.push(o[m2]) != path@) by {
                    assert(path@.push(o[m2]).len() != path@.len());
                }
                assert(dead_at(before, path@.push(o[m2])));
            }
            if m < o.len() {
                assert(nondead_count(root0, path@, o.take(m)) >= l0);
            }
            assert(is_order_of(o, values@.len() as nat));
            assert(old(self).spec_order() matches SelectionOrder::Prefix(p) ==> o == spec_prefix_order(
                p@,
                path@.len(),
                n,
            ));
            if l0 >= nondead_count(root0, path@, o) {
                assert forall|m3: int| 0 <= m3 < o.len() implies #[trigger] passed_over(root0, path@, values@, condition, o[m3]) by {
                    if m3 >= m && !dead_at(root0, path@.push(o[m3])) {
                        lemma_nondead_prefix(root0, path@, o, m, m3);
                    }
                }
            }
        }
        Err(DeadBranch)
    }

    /// The decisions made; the path they took is marked dead and dead
    /// branches are pruned back up towards the root: each node on the path
    /// whose child died counts one live child less, and pruning goes on
    /// while that leaves the node dead. The tree, which the chooser held
    /// while it worked, is handed back alongside.
    pub fn finish(self) -> (r: (Vec<usize>, ChoiceTree))
        ensures
            r.0@ == self.spec_choices(),
            exists|d: int| #[trigger] pruned_to(self.spec_tree().root, r.0@, d, r.1.root),
    {
        let mut this = self;
        let ghost t0 = self.tree.root;
        let result = copy_path(this.choices.as_slice());
        let ghost c = result@;
        proof {
            assert(result@.skip(0) =~= result@);
            assert(c.take(c.len() as int) =~= c);
        }
        update_at(&mut this.tree.root, this.choices.as_slice(), 0, &NodeAction::Kill);
        proof {
            assert forall|q: Seq<usize>|
                (forall|j: int| c.len() <= j <= c.len() ==> q != #[trigger] c.take(j)) implies #[trigger] live_at(
                this.tree.root,
                q,
            ) == live_at(t0, q) by {
                assert(q != c.take(c.len() as int));
                assert(!touched(NodeAction::Kill, this.choices@.skip(0), q));
            }
        }
        while this.choices.len() > 0
            invariant
                dead_at(this.tree.root, c),
                this.choices@.len() <= c.len(),
                this.choices@ == c.take(this.choices@.len() as int),
                forall|j: int|
                    this.choices@.len() <= j < c.len() ==> #[trigger] live_at(this.tree.root, c.take(j)) == one_less(
                        live_at(t0, c.take(j)),
                    ),
                forall|j: int| this.choices@.len() < j < c.len() ==> #[trigger] dead_at(this.tree.root, c.take(j)),
                forall|q: Seq<usize>|
                    (forall|j: int| this.choices@.len() <= j <= c.len() ==> q != #[trigger] c.take(j))
                        ==> #[trigger] live_at(this.tree.root, q) == live_at(t0, q),
            ensures
                pruned_to(t0, c, this.choices@.len() as int, this.tree.root),
            decreases this.choices@.len(),
        {
            let ghost cur = this.choices@;
            let ghost l = cur.len() as int;
            proof {
                assert(this.choices@.skip(0) =~= this.choices@);
            }
            let ghost prepeek = this.tree.root;
            let report = update_at(&mut this.tree.root, this.choices.as_slice(), 0, &NodeAction::Peek);
            proof {
                assert forall|q: Seq<usize>| #[trigger] live_at(this.tree.root, q) == live_at(prepeek, q) by {
                    if q != cur {
                        assert(!touched(NodeAction::Peek, this.choices@.skip(0), q));
                    }
                }
                assert(dead_at(this.tree.root, c)) by {
                    assert(live_at(this.tree.root, c) == live_at(prepeek, c));
                }
                assert forall|j: int|
                    l <= j < c.len() implies #[trigger] live_at(this.tree.root, c.take(j)) == one_less(
                        live_at(t0, c.take(j)),
                    ) by {
                    assert(live_at(this.tree.root, c.take(j)) == live_at(prepeek, c.take(j)));
                }
                assert forall|j: int| l < j < c.len() implies #[trigger] dead_at(this.tree.root, c.take(j)) by {
                    assert(dead_at(prepeek, c.take(j)));
                    assert(live_at(this.tree.root, c.take(j)) == live_at(prepeek, c.take(j)));
                }
                assert forall|q: Seq<usize>|
                    (forall|j: int| l <= j <= c.len() ==> q != #[trigger] c.take(j)) implies #[trigger] live_at(
                    this.tree.root,
                    q,
                ) == live_at(t0, q) by {
                    assert(live_at(this.tree.root, q) == live_at(prepeek, q));
                }
            }
            let dead = match report.live {
                Some(live) => live == 0,
                None => false,
            };
            if !dead {
                proof {
                    assert(!dead_at(this.tree.root, c.take(l)));
                }
                break;
            }
            let ghost peeked = this.tree.root;
            let dead_idx = match this.choices.pop() {
                Some(d) => d,
                None => 0,
            };
            proof {
                assert(this.choices@.skip(0) =~= this.choices@);
                assert(cur =~= this.choices@.push(dead_idx));
                assert(this.choices@ =~= c.take(l - 1));
                assert(this.choices@.push(dead_idx) =~= c.take(l));
                assert(dead_at(peeked, c.take(l)));
            }
            update_at(&mut this.tree.root, this.choices.as_slice(), 0, &NodeAction::KillChild(dead_idx));
            proof {
                let p = c.take(l - 1);
                assert(this.choices@.skip(0) =~= p);
                assert(live_at(peeked, p) == live_at(t0, p)) by {
                    assert forall|j: int| l <= j <= c.len() implies p != #[trigger] c.take(j) by {
                        assert(c.take(j).len() != p.len());
                    }
                }
                assert forall|j: int| l - 1 <= j < c.len() implies #[trigger] live_at(this.tree.root, c.take(j))
                    == one_less(live_at(t0, c.take(j))) by {
                    if j >= l {
                        assert(c.take(j) != p) by {
                            assert(c.take(j).len() != p.len());
                        }
                        if j == l {
                            assert(dead_at(this.tree.root, c.take(j)));
                            assert(dead_at(peeked, c.take(j)));
                        } else {
                            assert(c.take(j) != p.push(dead_idx)) by {
                                assert(c.take(j).len() != p.push(dead_idx).len());
                            }
                        }
                    }
                }
                assert forall|j: int| l - 1 < j < c.len() implies #[trigger] dead_at(this.tree.root, c.take(j)) by {
                    if j > l {
                        assert(c.take(j) != p) by {
                            assert(c.take(j).len() != p.len());
                        }
                        assert(c.take(j) != p.push(dead_idx)) by {
                            assert(c.take(j).len() != p.push(dead_idx).len());
                        }
                        assert(dead_at(peeked, c.take(j)));
                    }
                }
                assert(dead_at(this.tree.root, c)) by {
                    if l < c.len() {
                        assert(c != p) by {
                            assert(c.len() != p.len());
                        }
                        assert(c != p.push(dead_idx)) by {
                            assert(c.len() != p.push(dead_idx).len());
                        }
                        assert(dead_at(peeked, c));
                    } else {
                        assert(c.take(l) =~= c);
                    }
                }
                assert forall|q: Seq<usize>|
                    (forall|j: int| l - 1 <= j <= c.len() ==> q != #[trigger] c.take(j)) implies #[trigger] live_at(
                    this.tree.root,
                    q,
                ) == live_at(t0, q) by {
                    assert(q != c.take(l - 1));
                    assert(q != c.take(l));
                    assert(!touched(NodeAction::KillChild(dead_idx), this.choices@.skip(0), q));
                    assert(forall|j: int| l <= j <= c.len() ==> q != #[trigger] c.take(j));
                    assert(live_at(peeked, q) == live_at(t0, q));
                }
            }
        }
        proof {
            assert(pruned_to(t0, c, this.choices@.len() as int, this.tree.root));
        }
        (result, this.tree)
    }
}

/// A copy of a path.
fn copy_path(v: &[usize]) -> (r: Vec<usize>)
    ensures
        r@ == v@,
{
    let mut r: Vec<usize> = Vec::new();
    let mut i: usize = 0;
    while i < v.len()
        invariant
            i <= v@.len(),
            r@ == v@.subrange(0, i as int),
        decreases v@.len() - i,
    {
        r.push(v[i]);
        proof {
            assert(v@.subrange(0, i + 1) =~= v@.subrange(0, i as int).push(v@[i as int]));
        }
        i += 1;
    }
    assert(v@.subrange(0, v@.len() as int) =~= v@);
    r
}

impl ChoiceTree {
    /// Runs one pass step `f` over a fresh chooser and returns the decisions
    /// it made: the choices the chooser held when `f` returned. The path
    /// those decisions took is then dead and pruned upwards, so later steps
    /// skip it.
    pub fn step<F: FnOnce(&mut Chooser) -> Result<(), DeadBranch>>(&mut self, selection_order: SelectionOrder, f: F) -> (r: Vec<
        usize,
    >)
        requires
            old(self).root.live_child_count != Some(0usize),
            forall|c: &mut Chooser| f.requires((c,)),
        ensures
            exists|m: &mut Chooser, res: Result<(), DeadBranch>|
                #![trigger f.ensures((m,), res)]
                {
                    &&& (*m).spec_tree() == *old(self)
                    &&& (*m).spec_choices() == Seq::<usize>::empty()
                    &&& (*m).spec_order() == selection_order
                    &&& f.ensures((m,), res)
                    &&& r@ == final(m).spec_choices()
                    &&& exists|d: int| #[trigger] pruned_to(final(m).spec_tree().root, r@, d, final(self).root)
                },
    {
        let mut tree = ChoiceTree::new();
        std::mem::swap(&mut tree, self);
        let mut chooser = Chooser::new(tree, selection_order);
        let ghost c0 = chooser;
        let res = f(&mut chooser);
        let ghost c1 = chooser;
        let (choices, tree) = chooser.finish();
        *self = tree;
        proof {
            let d = choose|d: int| #[trigger] pruned_to(c1.spec_tree().root, choices@, d, self.root);
            assert(exists|m: &mut Chooser| *m == c0 && *final(m) == c1 && f.ensures((m,), res));
        }
        choices
    }
}

} // verus!
