use vstd::prelude::*;

use crate::webp::bitwriter::{bits_of, bits_value, lemma_bits_value_bound, BitWriter};
use vstd::arithmetic::power2::{lemma2_to64, lemma_pow2_adds, lemma_pow2_pos, lemma_pow2_unfold, pow2};
use vstd::set_lib::lemma_len_subset;

verus! {

broadcast use vstd::set_lib::lemma_set_disjoint_lens;

/// The longest code any table but the meta-alphabet's may use.
pub const MAX_CODE_LENGTH: u32 = 15;

/// The meta-alphabet (over the 19 code-length symbols, used to transmit
/// every other table's code lengths) has its own code lengths transmitted
/// via a hard 3-bit field, so its own Huffman tree must never exceed
/// depth 7 -- a separate, smaller limit than the 15-bit cap that applies
/// everywhere else.
pub const MAX_META_CODE_LENGTH: u32 = 7;

/// A Huffman (sub)tree: a symbol, or two subtrees one level down.
pub enum Tree {
    Leaf(u32),
    Node(Box<Tree>, Box<Tree>),
}

/// A queue entry of the Huffman construction. Ties in weight are broken by
/// insertion order so the resulting code lengths are deterministic.
pub struct HeapNode {
    pub weight: u64,
    pub order: u32,
    pub node: Tree,
}

/// The symbols at the leaves of `t`.
pub open spec fn leaves(t: Tree) -> Set<u32>
    decreases t,
{
    match t {
        Tree::Leaf(s) => set![s],
        Tree::Node(a, b) => leaves(*a) + leaves(*b),
    }
}

/// No symbol occurs at two leaves.
pub open spec fn distinct_leaves(t: Tree) -> bool
    decreases t,
{
    match t {
        Tree::Leaf(_) => true,
        Tree::Node(a, b) => distinct_leaves(*a) && distinct_leaves(*b) && leaves(*a).disjoint(
            leaves(*b),
        ),
    }
}

/// The depth of the deepest leaf.
pub open spec fn height(t: Tree) -> nat
    decreases t,
{
    match t {
        Tree::Leaf(_) => 0,
        Tree::Node(a, b) => 1 + if height(*a) >= height(*b) {
            height(*a)
        } else {
            height(*b)
        },
    }
}

/// The Kraft sum, scaled by `2^h`, of the code lengths `t` gives its
/// leaves when its root sits at depth `d` (a leaf never gets length 0).
pub open spec fn tree_kraft(t: Tree, d: nat, h: nat) -> nat
    decreases t,
{
    match t {
        Tree::Leaf(_) => pow2((h - if d >= 1 {
            d
        } else {
            1
        }) as nat),
        Tree::Node(a, b) => tree_kraft(*a, d + 1, h) + tree_kraft(*b, d + 1, h),
    }
}

/// The Kraft sum of code lengths `lengths` (0 = unused), scaled by `2^h`.
pub open spec fn kraft(lengths: Seq<int>, h: nat) -> nat
    decreases lengths.len(),
{
    if lengths.len() == 0 {
        0
    } else {
        kraft(lengths.drop_last(), h) + if lengths.last() > 0 {
            pow2((h - lengths.last()) as nat)
        } else {
            0
        }
    }
}

/// A `u32` sequence as integers.
pub open spec fn ints32(s: Seq<u32>) -> Seq<int> {
    Seq::new(s.len(), |i: int| s[i] as int)
}

/// A `u8` sequence as integers.
pub open spec fn ints8(s: Seq<u8>) -> Seq<int> {
    Seq::new(s.len(), |i: int| s[i] as int)
}

pub proof fn lemma_kraft_update(s: Seq<int>, i: int, v: int, h: nat)
    requires
        0 <= i < s.len(),
        s[i] == 0,
        v > 0,
    ensures
        kraft(s.update(i, v), h) == kraft(s, h) + pow2((h - v) as nat),
    decreases s.len(),
{
    if i < s.len() - 1 {
        lemma_kraft_update(s.drop_last(), i, v, h);
        assert(s.update(i, v).drop_last() =~= s.drop_last().update(i, v));
    } else {
        assert(s.update(i, v).drop_last() =~= s.drop_last());
    }
}

proof fn lemma_kraft_zeros(n: nat, h: nat)
    ensures
        kraft(Seq::new(n, |i: int| 0int), h) == 0,
    decreases n,
{
    if n > 0 {
        lemma_kraft_zeros((n - 1) as nat, h);
        assert(Seq::new(n, |i: int| 0int).drop_last() =~= Seq::new((n - 1) as nat, |i: int| 0int));
    }
}

proof fn lemma_tree_kraft(t: Tree, d: nat, h: nat)
    requires
        d >= 1,
        d + height(t) <= h,
    ensures
        tree_kraft(t, d, h) == pow2((h - d) as nat),
    decreases t,
{
    match t {
        Tree::Leaf(_) => {},
        Tree::Node(a, b) => {
            lemma_tree_kraft(*a, d + 1, h);
            lemma_tree_kraft(*b, d + 1, h);
            lemma_pow2_unfold((h - d) as nat);
        },
    }
}

proof fn lemma_height_below_leaf_count(t: Tree)
    requires
        distinct_leaves(t),
    ensures
        leaves(t).finite(),
        height(t) < leaves(t).len(),
    decreases t,
{
    match t {
        Tree::Leaf(s) => {
            assert(leaves(t) == set![s]);
            assert(set![s].len() == 1) by {
                assert(set![s] =~= Set::<u32>::empty().insert(s));
            }
        },
        Tree::Node(a, b) => {
            lemma_height_below_leaf_count(*a);
            lemma_height_below_leaf_count(*b);
        },
    }
}

/// `a` comes before `b` in the queue: lighter, or as heavy and older.
pub open spec fn lighter(a: HeapNode, b: HeapNode) -> bool {
    a.weight < b.weight || (a.weight == b.weight && a.order < b.order)
}

/// The index of the lightest entry of `q` from `k` on, `m` the lightest
/// before.
pub open spec fn lightest_from(q: Seq<HeapNode>, k: int, m: int) -> int
    decreases q.len() - k,
{
    if k < 0 || k >= q.len() {
        m
    } else {
        lightest_from(
            q,
            k + 1,
            if lighter(q[k], q[m]) {
                k
            } else {
                m
            },
        )
    }
}

/// The index of the lightest entry of `q`.
pub open spec fn lightest(q: Seq<HeapNode>) -> int {
    lightest_from(q, 1, 0)
}

pub proof fn lemma_lightest_range(q: Seq<HeapNode>, k: int, m: int)
    requires
        0 <= m < q.len(),
        0 <= k,
    ensures
        0 <= lightest_from(q, k, m) < q.len(),
    decreases q.len() - k,
{
    if k < q.len() {
        lemma_lightest_range(
            q,
            k + 1,
            if lighter(q[k], q[m]) {
                k
            } else {
                m
            },
        );
    }
}

/// The tree the construction ends with from queue `q`, the next merged
/// entry getting order `order`: the two lightest entries are merged, the
/// lighter on the left, until one is left.
pub open spec fn merged_tree(q: Seq<HeapNode>, order: int) -> Tree
    decreases q.len(),
{
    if q.len() <= 1 {
        q[0].node
    } else {
        proof {
            lemma_lightest_range(q, 1, 0);
            lemma_lightest_range(q.remove(lightest(q)), 1, 0);
        }
        let ia = lightest(q);
        let a = q[ia];
        let q1 = q.remove(ia);
        let ib = lightest(q1);
        let b = q1[ib];
        let q2 = q1.remove(ib);
        merged_tree(
            q2.push(
                HeapNode {
                    weight: (a.weight + b.weight) as u64,
                    order: order as u32,
                    node: Tree::Node(Box::new(a.node), Box::new(b.node)),
                },
            ),
            order + 1,
        )
    }
}

/// The starting queue: one leaf per used symbol, in order.
pub open spec fn leaf_queue(used: Seq<(usize, u32)>) -> Seq<HeapNode> {
    Seq::new(
        used.len(),
        |k: int|
            HeapNode { weight: used[k].1 as u64, order: k as u32, node: Tree::Leaf(used[k].0 as u32) },
    )
}

/// The used symbols among the first `k`, with their counts, in order.
pub open spec fn used_upto(histogram: Seq<u32>, k: int) -> Seq<(usize, u32)>
    decreases k,
{
    if k <= 0 {
        Seq::empty()
    } else if histogram[k - 1] > 0 {
        used_upto(histogram, k - 1).push(((k - 1) as usize, histogram[k - 1]))
    } else {
        used_upto(histogram, k - 1)
    }
}

/// The depth of the leaf of symbol `s` in `t`, reached at depth `d` (a
/// root leaf counts as depth 1); 0 for a symbol at no leaf.
pub open spec fn leaf_depth(t: Tree, d: int, s: u32) -> int
    decreases t,
{
    match t {
        Tree::Leaf(x) => if x == s {
            if d >= 1 {
                d
            } else {
                1
            }
        } else {
            0
        },
        Tree::Node(a, b) => if leaves(*a).contains(s) {
            leaf_depth(*a, d + 1, s)
        } else {
            leaf_depth(*b, d + 1, s)
        },
    }
}

proof fn lemma_leaf_depth_absent(t: Tree, d: int, s: u32)
    requires
        !leaves(t).contains(s),
    ensures
        leaf_depth(t, d, s) == 0,
    decreases t,
{
    match t {
        Tree::Leaf(x) => {
            assert(leaves(t).contains(x));
        },
        Tree::Node(a, b) => {
            assert(leaves(t) == leaves(*a) + leaves(*b));
            lemma_leaf_depth_absent(*b, d + 1, s);
        },
    }
}

/// The Huffman code lengths of `histogram` before any limiting: the depth
/// of each used symbol's leaf in the tree built by merging the two
/// lightest trees (ties to the older), where two or more symbols are used.
pub open spec fn huffman_depths(histogram: Seq<u32>) -> Seq<int> {
    let used = used_upto(histogram, histogram.len() as int);
    Seq::new(
        histogram.len(),
        |i: int| leaf_depth(merged_tree(leaf_queue(used), used.len() as int), 0, i as u32),
    )
}

/// Writes each leaf's depth (at least 1) into `out[symbol]`.
fn assign_depths(tree: &Tree, depth: u32, out: &mut Vec<u32>, Ghost(h): Ghost<nat>)
    requires
        distinct_leaves(*tree),
        forall|s: u32| #[trigger] leaves(*tree).contains(s) ==> s < old(out).len() && old(out)[s as int] == 0,
        depth + height(*tree) <= h,
        h < u32::MAX,
    ensures
        final(out).len() == old(out).len(),
        forall|s: u32|
            #[trigger] leaves(*tree).contains(s) ==> 1 <= final(out)[s as int] <= (if depth
                + height(*tree) >= 1 {
                depth + height(*tree)
            } else {
                1
            }),
        forall|i: int|
            0 <= i < old(out).len() && !leaves(*tree).contains(i as u32) ==> #[trigger] final(out)[i]
                == old(out)[i],
        kraft(ints32(final(out)@), h) == kraft(ints32(old(out)@), h) + tree_kraft(*tree, depth as nat, h),
        forall|s: u32|
            #[trigger] leaves(*tree).contains(s) ==> final(out)[s as int] == leaf_depth(
                *tree,
                depth as int,
                s,
            ),
    decreases tree,
{
    match tree {
        Tree::Leaf(symbol) => {
            let v = if depth >= 1 {
                depth
            } else {
                1
            };
            let ghost before = ints32(out@);
            assert(leaves(*tree).contains(*symbol));
            out.set(*symbol as usize, v);
            proof {
                assert(leaves(*tree).contains(*symbol));
                lemma_kraft_update(before, *symbol as int, v as int, h);
                assert(ints32(out@) =~= before.update(*symbol as int, v as int));
                assert forall|i: int|
                    0 <= i < old(out).len() && !leaves(*tree).contains(i as u32) implies #[trigger] out@[i]
                    == old(out)[i] by {
                    assert(i != *symbol as int);
                }
            }
        },
        Tree::Node(a, b) => {
            assert(leaves(*tree) == leaves(**a) + leaves(**b));
            assert forall|s: u32| #[trigger] leaves(**a).contains(s) implies s < out.len() && out[s as int] == 0 by {
                assert(leaves(*tree).contains(s));
            }
            assign_depths(a, depth + 1, out, Ghost(h));
            assert forall|s: u32| #[trigger] leaves(**b).contains(s) implies s < out.len() && out[s as int] == 0 by {
                assert(!leaves(**a).contains(s));
                assert(leaves(*tree).contains(s));
            }
            assign_depths(b, depth + 1, out, Ghost(h));
            assert forall|i: int|
                0 <= i < old(out).len() && !leaves(*tree).contains(i as u32) implies #[trigger] out@[i]
                == old(out)[i] by {
                assert(!leaves(**a).contains(i as u32));
                assert(!leaves(**b).contains(i as u32));
            }
        },
    }
}

/// The symbols at the leaves of every tree in a queue.
pub open spec fn queue_leaves(q: Seq<HeapNode>) -> Set<u32>
    decreases q.len(),
{
    if q.len() == 0 {
        Set::empty()
    } else {
        queue_leaves(q.drop_last()) + leaves(q.last().node)
    }
}

/// The symbols of a `(symbol, count)` list.
pub open spec fn used_syms(used: Seq<(usize, u32)>) -> Set<u32>
    decreases used.len(),
{
    if used.len() == 0 {
        Set::empty()
    } else {
        used_syms(used.drop_last()).insert(used.last().0 as u32)
    }
}

proof fn lemma_queue_leaves_remove(q: Seq<HeapNode>, i: int)
    requires
        0 <= i < q.len(),
    ensures
        queue_leaves(q) == queue_leaves(q.remove(i)) + leaves(q[i].node),
    decreases q.len(),
{
    if i == q.len() - 1 {
        assert(q.remove(i) =~= q.drop_last());
    } else {
        lemma_queue_leaves_remove(q.drop_last(), i);
        assert(q.remove(i).drop_last() =~= q.drop_last().remove(i));
        assert(q.remove(i).last() == q.last());
        assert(queue_leaves(q) =~= queue_leaves(q.remove(i)) + leaves(q[i].node));
    }
}

proof fn lemma_queue_leaves_finite(q: Seq<HeapNode>)
    requires
        forall|k: int| 0 <= k < q.len() ==> distinct_leaves(#[trigger] q[k].node),
    ensures
        queue_leaves(q).finite(),
    decreases q.len(),
{
    if q.len() > 0 {
        lemma_queue_leaves_finite(q.drop_last());
        lemma_height_below_leaf_count(q.last().node);
    }
}

proof fn lemma_used_syms_len(used: Seq<(usize, u32)>)
    ensures
        used_syms(used).finite(),
        used_syms(used).len() <= used.len(),
    decreases used.len(),
{
    if used.len() > 0 {
        lemma_used_syms_len(used.drop_last());
    }
}

/// The queue invariant of the Huffman construction.
pub open spec fn queue_ok(q: Seq<HeapNode>, n: nat, total: nat) -> bool {
    &&& forall|k: int| 0 <= k < q.len() ==> distinct_leaves(#[trigger] q[k].node)
    &&& forall|k: int|
        0 <= k < q.len() ==> #[trigger] q[k].weight <= leaves(q[k].node).len() * (u32::MAX as nat)
    &&& forall|k: int, s: u32|
        0 <= k < q.len() && #[trigger] leaves(q[k].node).contains(s) ==> (s as int) < n
    &&& forall|k: int, j: int|
        0 <= k < q.len() && 0 <= j < q.len() && k != j ==> #[trigger] leaves(q[k].node).disjoint(
            #[trigger] leaves(q[j].node),
        )
    &&& queue_leaves(q).finite()
    &&& queue_leaves(q).len() <= total
}

/// The index of the entry with the least `(weight, order)`.
fn min_index(q: &Vec<HeapNode>) -> (m: usize)
    requires
        q.len() > 0,
    ensures
        m < q.len(),
        forall|k: int|
            0 <= k < q.len() ==> (q[m as int].weight < #[trigger] q[k].weight || (q[m as int].weight
                == q[k].weight && q[m as int].order <= q[k].order)),
        m == lightest(q@),
{
    let mut m: usize = 0;
    let mut k: usize = 1;
    while k < q.len()
        invariant
            m < k <= q.len(),
            lightest_from(q@, 1, 0) == lightest_from(q@, k as int, m as int),
            forall|j: int|
                0 <= j < k ==> (q[m as int].weight < #[trigger] q[j].weight || (q[m as int].weight
                    == q[j].weight && q[m as int].order <= q[j].order)),
        decreases q.len() - k,
    {
        if q[k].weight < q[m].weight || (q[k].weight == q[m].weight && q[k].order < q[m].order) {
            m = k;
        }
        k += 1;
    }
    m
}

proof fn lemma_queue_ok_remove(q: Seq<HeapNode>, n: nat, total: nat, i: int)
    requires
        queue_ok(q, n, total),
        0 <= i < q.len(),
    ensures
        queue_ok(q.remove(i), n, total),
        queue_leaves(q) == queue_leaves(q.remove(i)) + leaves(q[i].node),
        forall|k: int|
            0 <= k < q.remove(i).len() ==> leaves(#[trigger] q.remove(i)[k].node).disjoint(
                leaves(q[i].node),
            ),
{
    let r = q.remove(i);
    lemma_queue_leaves_remove(q, i);
    assert forall|k: int| 0 <= k < r.len() implies distinct_leaves(#[trigger] r[k].node) by {
        if k < i {
            assert(r[k] == q[k]);
        } else {
            assert(r[k] == q[k + 1]);
        }
    }
    assert forall|k: int| 0 <= k < r.len() implies #[trigger] r[k].weight <= leaves(r[k].node).len()
        * (u32::MAX as nat) by {
        if k < i {
            assert(r[k] == q[k]);
        } else {
            assert(r[k] == q[k + 1]);
        }
    }
    assert forall|k: int, s: u32| 0 <= k < r.len() && #[trigger] leaves(r[k].node).contains(s) implies (s as int) < n by {
        if k < i {
            assert(r[k] == q[k]);
        } else {
            assert(r[k] == q[k + 1]);
        }
    }
    assert forall|k: int, j: int|
        0 <= k < r.len() && 0 <= j < r.len() && k != j implies #[trigger] leaves(r[k].node).disjoint(
        #[trigger] leaves(r[j].node),
    ) by {
        let kk = if k < i {
            k
        } else {
            k + 1
        };
        let jj = if j < i {
            j
        } else {
            j + 1
        };
        assert(r[k] == q[kk]);
        assert(r[j] == q[jj]);
    }
    assert forall|k: int| 0 <= k < r.len() implies leaves(#[trigger] r[k].node).disjoint(
        leaves(q[i].node),
    ) by {
        let kk = if k < i {
            k
        } else {
            k + 1
        };
        assert(r[k] == q[kk]);
    }
    lemma_queue_leaves_finite(r);
    vstd::set_lib::lemma_len_subset(queue_leaves(r), queue_leaves(q));
}

/// Builds the Huffman tree over the used symbols `used` (at least two, in
/// increasing symbol order) by repeatedly merging the two lightest trees.
fn build_tree(used: &Vec<(usize, u32)>, Ghost(n): Ghost<nat>) -> (root: Tree)
    requires
        2 <= used.len() <= n,
        n < 0x8000_0000,
        forall|k: int| 0 <= k < used.len() ==> (#[trigger] used[k]).0 < n,
        forall|k: int, j: int| 0 <= k < j < used.len() ==> (#[trigger] used[k]).0 < (#[trigger] used[j]).0,
    ensures
        distinct_leaves(root),
        leaves(root) == used_syms(used@),
        root is Node,
        root == merged_tree(leaf_queue(used@), used.len() as int),
{
    let ghost total = used.len() as nat;
    proof {
        lemma_used_syms_len(used@);
    }
    let mut heap: Vec<HeapNode> = Vec::new();
    let mut k: usize = 0;
    while k < used.len()
        invariant
            2 <= used.len() <= n,
            n < 0x8000_0000,
            total == used.len(),
            k <= used.len(),
            heap.len() == k,
            forall|j: int| 0 <= j < used.len() ==> (#[trigger] used[j]).0 < n,
            forall|a: int, b: int| 0 <= a < b < used.len() ==> (#[trigger] used[a]).0 < (#[trigger] used[b]).0,
            forall|j: int| 0 <= j < k ==> #[trigger] heap[j].node == Tree::Leaf(used[j].0 as u32),
            queue_leaves(heap@) == used_syms(used@.take(k as int)),
            forall|j: int| 0 <= j < k ==> #[trigger] heap[j].weight == used[j].1,
            heap@ =~= leaf_queue(used@).take(k as int),
        decreases used.len() - k,
    {
        let (symbol, count) = used[k];
        let ghost h0 = heap@;
        heap.push(HeapNode { weight: count as u64, order: k as u32, node: Tree::Leaf(symbol as u32) });
        proof {
            assert(heap@.drop_last() == h0);
            assert(used@.take(k + 1).drop_last() =~= used@.take(k as int));
            assert(queue_leaves(heap@) =~= used_syms(used@.take(k + 1)));
        }
        k += 1;
    }
    proof {
        assert(used@.take(used.len() as int) =~= used@);
        assert(heap@ =~= leaf_queue(used@));
        assert forall|j: int| 0 <= j < heap.len() implies distinct_leaves(#[trigger] heap@[j].node) by {
            assert(heap@[j].node == Tree::Leaf(used[j].0 as u32));
        }
        assert forall|j: int| 0 <= j < heap.len() implies #[trigger] heap@[j].weight <= leaves(heap@[j].node).len() * (u32::MAX as nat) by {
            let s = used[j].0 as u32;
            assert(leaves(heap@[j].node) =~= Set::<u32>::empty().insert(s));
        }
        assert forall|j: int, s: u32| 0 <= j < heap.len() && #[trigger] leaves(heap@[j].node).contains(s) implies (s as int) < n by {
            assert(heap@[j].node == Tree::Leaf(used[j].0 as u32));
        }
        assert forall|a: int, b: int|
            0 <= a < heap.len() && 0 <= b < heap.len() && a != b implies #[trigger] leaves(heap@[a].node).disjoint(
            #[trigger] leaves(heap@[b].node),
        ) by {
            assert(heap@[a].node == Tree::Leaf(used[a].0 as u32));
            assert(heap@[b].node == Tree::Leaf(used[b].0 as u32));
            if a < b {
                assert(used[a].0 < used[b].0);
            } else {
                assert(used[b].0 < used[a].0);
            }
        }
    }

    let mut order: u32 = used.len() as u32;
    while heap.len() > 1
        invariant
            2 <= used.len() <= n,
            n < 0x8000_0000,
            total == used.len(),
            1 <= heap.len() <= used.len(),
            order == 2 * used.len() - heap.len(),
            queue_ok(heap@, n, total),
            queue_leaves(heap@) == used_syms(used@),
            used_syms(used@).finite(),
            used_syms(used@).len() <= total,
            heap.len() < used.len() ==> heap@.last().node is Node,
            merged_tree(heap@, order as int) == merged_tree(leaf_queue(used@), used.len() as int),
        decreases heap.len(),
    {
        let ghost q0 = heap@;
        let ia = min_index(&heap);
        let a = heap.remove(ia);
        proof {
            lemma_queue_ok_remove(q0, n, total, ia as int);
        }
        let ghost q1 = heap@;
        let ib = min_index(&heap);
        let b = heap.remove(ib);
        proof {
            lemma_queue_ok_remove(q1, n, total, ib as int);
            assert(leaves(b.node).disjoint(leaves(a.node)));
            lemma_height_below_leaf_count(a.node);
            lemma_height_below_leaf_count(b.node);
            vstd::set_lib::lemma_len_subset(leaves(a.node) + leaves(b.node), queue_leaves(q0));
            assert(leaves(a.node).len() + leaves(b.node).len() <= total);
            assert((leaves(a.node).len() + leaves(b.node).len()) * (u32::MAX as nat) <= total * (u32::MAX as nat)) by (nonlinear_arith)
                requires
                    leaves(a.node).len() + leaves(b.node).len() <= total,
            ;
            assert(total * (u32::MAX as nat) <= u64::MAX) by (nonlinear_arith)
                requires
                    total < u32::MAX,
            ;
            assert(a.weight + b.weight <= (leaves(a.node).len() + leaves(b.node).len()) * (u32::MAX as nat)) by (nonlinear_arith)
                requires
                    a.weight <= leaves(a.node).len() * (u32::MAX as nat),
                    b.weight <= leaves(b.node).len() * (u32::MAX as nat),
            ;
        }
        let ghost q2 = heap@;
        let merged = HeapNode {
            weight: a.weight + b.weight,
            order,
            node: Tree::Node(Box::new(a.node), Box::new(b.node)),
        };
        let ghost m = merged;
        heap.push(merged);
        proof {
            let q3 = heap@;
            assert(merged_tree(q0, order as int) == merged_tree(q3, order + 1));
            assert(q3.drop_last() == q2);
            assert(leaves(m.node) == leaves(a.node) + leaves(b.node));
            assert(queue_leaves(q3) =~= queue_leaves(q0));
            assert forall|j: int| 0 <= j < q3.len() implies distinct_leaves(#[trigger] q3[j].node) by {
                if j < q2.len() {
                    assert(q3[j] == q2[j]);
                }
            }
            assert forall|j: int| 0 <= j < q3.len() implies #[trigger] q3[j].weight <= leaves(q3[j].node).len() * (u32::MAX as nat) by {
                if j < q2.len() {
                    assert(q3[j] == q2[j]);
                }
            }
            assert forall|j: int, s: u32| 0 <= j < q3.len() && #[trigger] leaves(q3[j].node).contains(s) implies (s as int) < n by {
                if j < q2.len() {
                    assert(q3[j] == q2[j]);
                } else {
                    if leaves(a.node).contains(s) {
                        assert(leaves(q0[ia as int].node).contains(s));
                    } else {
                        assert(leaves(q1[ib as int].node).contains(s));
                        let kk = if (ib as int) < (ia as int) { ib as int } else { ib + 1 };
                        assert(q1[ib as int] == q0[kk]);
                    }
                }
            }
            assert forall|x: int, y: int|
                0 <= x < q3.len() && 0 <= y < q3.len() && x != y implies #[trigger] leaves(q3[x].node).disjoint(
                #[trigger] leaves(q3[y].node),
            ) by {
                if x < q2.len() && y < q2.len() {
                    assert(q3[x] == q2[x]);
                    assert(q3[y] == q2[y]);
                } else if x < q2.len() {
                    assert(q3[x] == q2[x]);
                    assert(q2[x] == q1.remove(ib as int)[x]);
                    let xx = if x < ib { x } else { x + 1 };
                    assert(q2[x] == q1[xx]);
                    assert(leaves(q1[xx].node).disjoint(leaves(a.node)));
                } else {
                    assert(q3[y] == q2[y]);
                    let yy = if y < ib { y } else { y + 1 };
                    assert(q2[y] == q1[yy]);
                    assert(leaves(q1[yy].node).disjoint(leaves(a.node)));
                }
            }
            lemma_queue_leaves_finite(q3);
        }
        order += 1;
    }
    let ghost hf = heap@;
    let root = heap.pop().unwrap();
    proof {
        assert(hf.len() == 1);
        assert(hf.last() == root);
        assert(merged_tree(hf, order as int) == hf[0].node);
        assert(hf.drop_last() =~= Seq::<HeapNode>::empty());
        assert(queue_leaves(hf.drop_last()) == Set::<u32>::empty());
        assert(queue_leaves(hf) =~= leaves(root.node));
    }
    root.node
}

/// `sum_{1 <= l < upto} count[l] * 2^(m - l)`: the Kraft sum, scaled by
/// `2^m`, of `count[l]` codes of each length `l`.
pub open spec fn count_kraft(count: Seq<u32>, m: nat, upto: nat) -> nat
    decreases upto,
{
    if upto <= 1 {
        0
    } else {
        count_kraft(count, m, (upto - 1) as nat) + (count[upto - 1] as nat) * pow2((m - (upto - 1)) as nat)
    }
}

/// `sum_{1 <= l < upto} count[l]`.
pub open spec fn count_total(count: Seq<u32>, upto: nat) -> nat
    decreases upto,
{
    if upto <= 1 {
        0
    } else {
        count_total(count, (upto - 1) as nat) + (count[upto - 1] as nat)
    }
}

/// How many entries of `lengths` are nonzero.
pub open spec fn support_size(lengths: Seq<int>) -> nat
    decreases lengths.len(),
{
    if lengths.len() == 0 {
        0
    } else {
        support_size(lengths.drop_last()) + if lengths.last() > 0 {
            1nat
        } else {
            0nat
        }
    }
}

proof fn lemma_count_update(count: Seq<u32>, m: nat, upto: nat, l: int, v: u32)
    requires
        1 <= l < upto,
        upto <= count.len(),
    ensures
        count_kraft(count.update(l, v), m, upto) + count[l] * pow2((m - l) as nat) == count_kraft(
            count,
            m,
            upto,
        ) + v * pow2((m - l) as nat),
        count_total(count.update(l, v), upto) + count[l] == count_total(count, upto) + v,
    decreases upto,
{
    let u = count.update(l, v);
    if l < upto - 1 {
        lemma_count_update(count, m, (upto - 1) as nat, l, v);
        assert(u[upto - 1] == count[upto - 1]);
    } else {
        lemma_count_unchanged(count, u, m, (upto - 1) as nat);
        assert(u[l] == v);
        assert(count_kraft(u, m, upto) == count_kraft(u, m, (upto - 1) as nat) + v * pow2((m - l) as nat));
        assert(count_kraft(count, m, upto) == count_kraft(count, m, (upto - 1) as nat) + count[l] * pow2((m - l) as nat));
        assert(count_total(u, upto) == count_total(u, (upto - 1) as nat) + v);
    }
}

proof fn lemma_count_unchanged(c1: Seq<u32>, c2: Seq<u32>, m: nat, upto: nat)
    requires
        upto <= c1.len(),
        upto <= c2.len(),
        forall|l: int| 1 <= l < upto ==> c1[l] == c2[l],
    ensures
        count_kraft(c1, m, upto) == count_kraft(c2, m, upto),
        count_total(c1, upto) == count_total(c2, upto),
    decreases upto,
{
    if upto > 1 {
        lemma_count_unchanged(c1, c2, m, (upto - 1) as nat);
    }
}

proof fn lemma_count_zero_above(count: Seq<u32>, m: nat, a: nat, b: nat)
    requires
        a <= b <= count.len(),
        forall|l: int| a <= l < b ==> count[l] == 0,
    ensures
        count_kraft(count, m, b) == count_kraft(count, m, a),
        count_total(count, b) == count_total(count, a),
    decreases b,
{
    if b > a {
        lemma_count_zero_above(count, m, a, (b - 1) as nat);
    }
}

proof fn lemma_count_scale(count: Seq<u32>, m: nat, k: nat, upto: nat)
    requires
        upto <= k + 1,
        k <= m,
    ensures
        count_kraft(count, m, upto) == pow2((m - k) as nat) * count_kraft(count, k, upto),
    decreases upto,
{
    if upto > 1 {
        lemma_count_scale(count, m, k, (upto - 1) as nat);
        let l = upto - 1;
        lemma_pow2_adds((m - k) as nat, (k - l) as nat);
        let a = count_kraft(count, k, (upto - 1) as nat);
        let p = pow2((m - k) as nat);
        let q = pow2((k - l) as nat);
        let c = count[l] as nat;
        assert(((m - k) as nat + (k - l) as nat) as nat == (m - l) as nat);
        assert(pow2((m - l) as nat) == p * q);
        assert(count_kraft(count, m, upto) == count_kraft(count, m, (upto - 1) as nat) + c * pow2((m - l) as nat));
        assert(count_kraft(count, k, upto) == a + c * q);
        let lhs = count_kraft(count, m, upto);
        let rhs = count_kraft(count, k, upto);
        assert(lhs == p * rhs) by (nonlinear_arith)
            requires
                lhs == p * a + c * (p * q),
                rhs == a + c * q,
        ;
    } else {
        assert(count_kraft(count, m, upto) == 0);
        assert(count_kraft(count, k, upto) == 0);
        assert(pow2((m - k) as nat) * 0 == 0);
    }
}

proof fn lemma_count_bound(count: Seq<u32>, upto: nat, l: int)
    requires
        1 <= l < upto,
    ensures
        count[l] <= count_total(count, upto),
    decreases upto,
{
    if l < upto - 1 {
        lemma_count_bound(count, (upto - 1) as nat, l);
    }
}

/// With every length above `len` unused, and the Kraft sum exactly one,
/// codes of the longest length `len` come in pairs.
proof fn lemma_count_parity(count: Seq<u32>, m: nat, len: nat)
    requires
        1 <= len <= m,
        count.len() == m + 1,
        count_kraft(count, m, m + 1) == pow2(m),
        forall|l: int| len < l <= m ==> count[l] == 0,
    ensures
        count[len as int] % 2 == 0,
{
    lemma_count_zero_above(count, m, len + 1, m + 1);
    let k = (len - 1) as nat;
    lemma_count_scale(count, m, k, len);
    let x = count_kraft(count, k, len);
    let p = pow2((m - len) as nat);
    lemma_pow2_unfold((m - k) as nat);
    lemma_pow2_adds((m - k) as nat, k);
    lemma_pow2_pos((m - len) as nat);
    let c = count[len as int] as int;
    let pk = pow2(k) as int;
    assert(2 * p * x + c * p == 2 * p * pk);
    assert(c * p == p * (2 * (pk - x))) by (nonlinear_arith)
        requires
            2 * p * x + c * p == 2 * p * pk,
    ;
    assert(c == 2 * (pk - x)) by (nonlinear_arith)
        requires
            c * p == p * (2 * (pk - x)),
            p > 0,
    ;
}

/// Fewer than `2^limit + 1` codes can always find a shorter length to
/// trade with.
proof fn lemma_count_has_shorter(count: Seq<u32>, m: nat, len: nat, limit: nat)
    requires
        1 <= limit < len <= m,
        count.len() == m + 1,
        count_kraft(count, m, m + 1) == pow2(m),
        count_total(count, m + 1) <= pow2(limit),
        count[len as int] > 0,
        forall|l: int| len < l <= m ==> count[l] == 0,
    ensures
        exists|j: int| 1 <= j <= len - 2 && count[j] > 0,
{
    if !(exists|j: int| 1 <= j <= len - 2 && count[j] > 0) {
        lemma_count_zero_above(count, m, len + 1, m + 1);
        lemma_count_zero_above(count, m, 1, (len - 1) as nat);
        let p = pow2((m - len) as nat);
        lemma_pow2_unfold((m - len + 1) as nat);
        lemma_pow2_adds((m - len) as nat, len);
        lemma_pow2_pos((m - len) as nat);
        let a = count[len - 1] as int;
        let b = count[len as int] as int;
        let pl = pow2(len) as int;
        assert(count_kraft(count, m, (len - 1) as nat) == 0);
        assert(count_kraft(count, m, len) == a * pow2((m - (len - 1)) as nat));
        assert(count_kraft(count, m, len + 1) == count_kraft(count, m, len) + b * p);
        assert(pow2((m - (len - 1)) as nat) == 2 * p);
        assert(((m - len) as nat + len) as nat == m);
        assert(pow2(m) == p * pl);
        assert(a * (2 * p) + b * p == p * pl);
        assert(2 * a + b == pl) by (nonlinear_arith)
            requires
                a * (2 * p) + b * p == p * pl,
                p > 0,
        ;
        lemma_pow2_unfold(len);
        assert(pow2(limit) <= pow2((len - 1) as nat)) by {
            if limit < len - 1 {
                vstd::arithmetic::power2::lemma_pow2_strictly_increases(limit, (len - 1) as nat);
            }
        }
        assert(count_total(count, (len - 1) as nat) == 0);
        assert(count_total(count, len) == count_total(count, (len - 1) as nat) + a);
        assert(count_total(count, len + 1) == count_total(count, len) + b);
        assert(count_total(count, len + 1) == a + b);
        assert(count_total(count, m + 1) == a + b);
    }
}

/// Scaling the Kraft sum from `2^a` to `2^b` when no length exceeds `a`.
proof fn lemma_kraft_scale(ls: Seq<int>, a: nat, b: nat)
    requires
        a <= b,
        forall|i: int| 0 <= i < ls.len() ==> ls[i] <= a,
    ensures
        kraft(ls, b) == pow2((b - a) as nat) * kraft(ls, a),
    decreases ls.len(),
{
    if ls.len() > 0 {
        lemma_kraft_scale(ls.drop_last(), a, b);
        if ls.last() > 0 {
            lemma_pow2_adds((b - a) as nat, (a - ls.last()) as nat);
        }
        let p = pow2((b - a) as nat);
        let k = kraft(ls.drop_last(), a);
        let t = if ls.last() > 0 { pow2((a - ls.last()) as nat) } else { 0 };
        let tb = if ls.last() > 0 { pow2((b - ls.last()) as nat) } else { 0 };
        assert(((b - a) as nat + (a - ls.last()) as nat) as nat == (b - ls.last()) as nat);
        assert(tb == p * t);
        let lhs = kraft(ls, b);
        let rhs = kraft(ls, a);
        assert(lhs == p * rhs) by (nonlinear_arith)
            requires
                lhs == p * k + tb,
                rhs == k + t,
                tb == p * t,
        ;
    } else {
        assert(pow2((b - a) as nat) * 0 == 0);
    }
}

/// Classic overflow-redistribution technique for bounding canonical
/// Huffman code lengths to `limit` bits while preserving the Kraft
/// equality (each promotion of an over-length code up by one level is
/// paid for by demoting a code at the next available shorter length down
/// into the freed slot).
/// The deepest length at or below `j` still in use, or 0.
pub open spec fn deepest_used(c: Seq<u32>, j: int) -> int
    decreases j,
{
    if j > 0 && c[j] == 0 {
        deepest_used(c, j - 1)
    } else {
        j
    }
}

pub proof fn lemma_deepest_used(c: Seq<u32>, j: int)
    requires
        0 <= j,
    ensures
        0 <= deepest_used(c, j) <= j,
    decreases j,
{
    if j > 0 && c[j] == 0 {
        lemma_deepest_used(c, j - 1);
    }
}

/// One trade at length `len`: two codes of that length become one a level
/// up, and a code at the deepest used length `j` two levels or more up
/// becomes two of length `j + 1`, applied in that order.
pub open spec fn trade(c: Seq<u32>, len: int) -> Seq<u32> {
    let j = deepest_used(c, len - 2);
    let c1 = c.update(len, (c[len] - 2) as u32);
    let c2 = c1.update(len - 1, (c1[len - 1] + 1) as u32);
    let c3 = c2.update(j + 1, (c2[j + 1] + 2) as u32);
    c3.update(j, (c3[j] - 1) as u32)
}

/// Trades at length `len` until no code of that length is left.
pub open spec fn drain(c: Seq<u32>, len: int) -> Seq<u32>
    decreases c[len],
{
    if 2 <= len < c.len() && c[len] >= 2 {
        proof {
            lemma_deepest_used(c, len - 2);
        }
        drain(trade(c, len), len)
    } else {
        c
    }
}

/// Trades every length from `len` down to above `limit` empty.
pub open spec fn redistributed(c: Seq<u32>, len: int, limit: int) -> Seq<u32>
    decreases len - limit,
{
    if len <= limit {
        c
    } else {
        redistributed(drain(c, len), len - 1, limit)
    }
}

fn redistribute(count: &mut Vec<u32>, limit: u32, max_len: u32, Ghost(total): Ghost<nat>)
    requires
        1 <= limit < max_len,
        old(count).len() == max_len + 1,
        old(count)[0] == 0,
        count_kraft(old(count)@, max_len as nat, (max_len + 1) as nat) == pow2(max_len as nat),
        count_total(old(count)@, (max_len + 1) as nat) == total,
        total <= pow2(limit as nat),
        total < 0x8000_0000,
        limit <= 255,
    ensures
        final(count).len() == max_len + 1,
        final(count)[0] == 0,
        count_kraft(final(count)@, max_len as nat, (max_len + 1) as nat) == pow2(max_len as nat),
        count_total(final(count)@, (max_len + 1) as nat) == total,
        forall|l: int| limit < l <= max_len ==> final(count)[l] == 0,
        final(count)@ == redistributed(old(count)@, max_len as int, limit as int),
{
    let ghost m = max_len as nat;
    let ghost c_in = count@;
    let mut len: u32 = max_len;
    while len > limit
        invariant
            redistributed(count@, len as int, limit as int) == redistributed(c_in, max_len as int, limit as int),
            1 <= limit <= len <= max_len,
            limit <= 255,
            total < 0x8000_0000,
            m == max_len,
            count.len() == max_len + 1,
            count[0] == 0,
            count_kraft(count@, m, m + 1) == pow2(m),
            count_total(count@, m + 1) == total,
            total <= pow2(limit as nat),
            forall|l: int| len < l <= max_len ==> count[l] == 0,
        decreases len,
    {
        let ghost c_len = count@;
        while count[len as usize] > 0
            invariant
                drain(count@, len as int) == drain(c_len, len as int),
                1 <= limit < len <= max_len,
                limit <= 255,
            total < 0x8000_0000,
                m == max_len,
                count.len() == max_len + 1,
                count[0] == 0,
                count_kraft(count@, m, m + 1) == pow2(m),
                count_total(count@, m + 1) == total,
                total <= pow2(limit as nat),
                forall|l: int| len < l <= max_len ==> count[l] == 0,
            decreases count[len as int],
        {
            proof {
                lemma_count_has_shorter(count@, m, len as nat, limit as nat);
                lemma_count_parity(count@, m, len as nat);
                lemma2_to64();
            }
            let mut j: usize = (len - 2) as usize;
            let ghost cc = count@;
            while j > 0 && count[j] == 0
                invariant
                    j <= len - 2,
                    len <= max_len,
                    count.len() == max_len + 1,
                    exists|jj: int| 1 <= jj <= j && count[jj] > 0,
                    count@ == cc,
                    deepest_used(cc, len - 2) == deepest_used(cc, j as int),
                decreases j,
            {
                j -= 1;
            }
            let ghost c0 = count@;
            assert(deepest_used(c0, len - 2) == j);
            assert(c0[len as int] >= 2);
            assert(drain(c0, len as int) == drain(trade(c0, len as int), len as int));
            proof {
                lemma_count_bound(c0, m + 1, (len - 1) as int);
                lemma_count_bound(c0, m + 1, (j + 1) as int);
                lemma_count_bound(c0, m + 1, len as int);
                lemma_count_bound(c0, m + 1, j as int);
            }
            let cl = count[len as usize];
            count.set(len as usize, cl - 2);
            let ghost c1 = count@;
            let cl1 = count[(len - 1) as usize];
            count.set((len - 1) as usize, cl1 + 1);
            let ghost c2 = count@;
            let cj1 = count[j + 1];
            count.set(j + 1, cj1 + 2);
            let ghost c3 = count@;
            let cj = count[j];
            count.set(j, cj - 1);
            proof {
                assert(count@ == trade(c0, len as int));
                lemma_count_update(c0, m, m + 1, len as int, (cl - 2) as u32);
                lemma_count_update(c1, m, m + 1, (len - 1) as int, (cl1 + 1) as u32);
                lemma_count_update(c2, m, m + 1, (j + 1) as int, (cj1 + 2) as u32);
                lemma_count_update(c3, m, m + 1, j as int, (cj - 1) as u32);
                lemma_pow2_unfold((m - (len - 1)) as nat);
                lemma_pow2_unfold((m - j) as nat);
                let pl = pow2((m - len) as nat) as int;
                let pl1 = pow2((m - (len - 1)) as nat) as int;
                let pj1 = pow2((m - (j + 1)) as nat) as int;
                let pj = pow2((m - j) as nat) as int;
                assert(pl1 == 2 * pl);
                assert(pj == 2 * pj1);
                let k0 = count_kraft(c0, m, m + 1) as int;
                let k1 = count_kraft(c1, m, m + 1) as int;
                let k2 = count_kraft(c2, m, m + 1) as int;
                let k3 = count_kraft(c3, m, m + 1) as int;
                let k4 = count_kraft(count@, m, m + 1) as int;
                assert(k4 == k0) by (nonlinear_arith)
                    requires
                        k1 + cl * pl == k0 + (cl - 2) * pl,
                        k2 + cl1 * pl1 == k1 + (cl1 + 1) * pl1,
                        k3 + cj1 * pj1 == k2 + (cj1 + 2) * pj1,
                        k4 + cj * pj == k3 + (cj - 1) * pj,
                        pl1 == 2 * pl,
                        pj == 2 * pj1,
                ;
            }
        }
        assert(drain(count@, len as int) == count@);
        len -= 1;
    }
}


/// The positions of the nonzero entries of `s`.
pub open spec fn support(s: Seq<u32>) -> Set<int> {
    Set::new(|i: int| 0 <= i < s.len() && s[i] > 0)
}

/// The positions whose length is above `l`, or equal to `l` and before `i`:
/// those the reassignment has handled once it reaches length `l` and
/// position `i`.
/// The used symbols dealt a length before symbol `i` of length `l`: those
/// longer, and those as long with a smaller index.
pub open spec fn handled(lengths: Seq<u32>, l: int, i: int) -> Set<int> {
    Set::new(|s: int| 0 <= s < lengths.len() && (lengths[s] > l || (lengths[s] == l && s < i)))
}

proof fn lemma_support_prefix_finite(s: Seq<u32>, k: int)
    requires
        0 <= k <= s.len(),
    ensures
        Set::new(|i: int| 0 <= i < k && s[i] > 0).finite(),
        Set::new(|i: int| 0 <= i < k && s[i] > 0).len() <= k,
{
    vstd::set_lib::lemma_int_range(0, k);
    vstd::set_lib::lemma_len_subset(
        Set::new(|i: int| 0 <= i < k && s[i] > 0),
        vstd::set_lib::set_int_range(0, k),
    );
}

/// The largest entry of `s` (0 when empty).
fn max_of(s: &Vec<u32>) -> (m: u32)
    ensures
        forall|i: int| 0 <= i < s.len() ==> s[i] <= m,
        s.len() == 0 ==> m == 0,
        s.len() > 0 ==> exists|i: int| 0 <= i < s.len() && s[i] == m,
        m == seq_max(s@),
{
    let mut m: u32 = 0;
    let mut k: usize = 0;
    while k < s.len()
        invariant
            k <= s.len(),
            m == seq_max(s@.take(k as int)),
            forall|i: int| 0 <= i < k ==> s[i] <= m,
            k == 0 ==> m == 0,
            k > 0 ==> exists|i: int| 0 <= i < k && s[i] == m,
        decreases s.len() - k,
    {
        proof {
            assert(s@.take(k + 1).drop_last() =~= s@.take(k as int));
        }
        if s[k] > m || k == 0 {
            m = s[k];
        }
        k += 1;
    }
    assert(s@.take(s.len() as int) =~= s@);
    m
}

/// The largest entry of `s`, or 0.
pub open spec fn seq_max(s: Seq<u32>) -> u32
    decreases s.len(),
{
    if s.len() == 0 {
        0
    } else if s.last() > seq_max(s.drop_last()) {
        s.last()
    } else {
        seq_max(s.drop_last())
    }
}

/// How many of the first `k` entries of `s` equal `l`.
pub open spec fn occurrences(s: Seq<u32>, l: int, k: int) -> nat
    decreases k,
{
    if k <= 0 {
        0
    } else {
        occurrences(s, l, k - 1) + if s[k - 1] == l {
            1nat
        } else {
            0nat
        }
    }
}

/// How many codes of each length from 0 to `m` the lengths `s` hold (none
/// counted at 0).
pub open spec fn length_counts(s: Seq<u32>, m: int) -> Seq<u32> {
    Seq::new(
        (m + 1) as nat,
        |l: int|
            if l == 0 {
                0u32
            } else {
                occurrences(s, l, s.len() as int) as u32
            },
    )
}

/// The length dealt out at rank `r` from the counts `c`, the longest
/// first: the first `c[cur]` ranks get `cur`, the next `c[cur - 1]` get
/// `cur - 1`, and so on.
pub open spec fn level_at(c: Seq<u32>, cur: int, r: int) -> int
    decreases cur,
{
    if cur <= 0 {
        0
    } else if r < c[cur] {
        cur
    } else {
        level_at(c, cur - 1, r - c[cur])
    }
}

/// The lengths `s` bounded by `limit`: unchanged where none is longer;
/// else the counts of each length are traded down to `limit` bits and the
/// traded lengths are dealt out, longest first, to the used symbols taken
/// by decreasing length and then by increasing index.
pub open spec fn limited(s: Seq<u32>, limit: int) -> Seq<int> {
    let m = seq_max(s) as int;
    if m <= limit {
        Seq::new(s.len(), |i: int| s[i] as int)
    } else {
        let c = redistributed(length_counts(s, m), m, limit);
        Seq::new(
            s.len(),
            |i: int|
                if s[i] == 0 {
                    0
                } else {
                    level_at(c, limit, handled(s, s[i] as int, i).len() as int)
                },
        )
    }
}

/// Prefix sums of counts grow.
proof fn lemma_count_total_mono(c: Seq<u32>, a: nat, b: nat)
    requires
        a <= b,
    ensures
        count_total(c, a) <= count_total(c, b),
    decreases b,
{
    if b > a {
        lemma_count_total_mono(c, a, (b - 1) as nat);
    }
}

/// Dealing out from `lim` down: the ranks past every code longer than
/// `cur` and before the `c[cur]`-th code of length `cur` get `cur`.
proof fn lemma_level_at(c: Seq<u32>, lim: int, cur: int, x: int)
    requires
        1 <= cur <= lim,
        lim + 1 <= c.len(),
        0 <= x < c[cur],
    ensures
        level_at(c, lim, count_total(c, (lim + 1) as nat) - count_total(c, (cur + 1) as nat) + x) == cur,
    decreases lim - cur,
{
    if lim > cur {
        lemma_count_total_mono(c, (cur + 1) as nat, lim as nat);
        lemma_level_at(c, lim - 1, cur, x);
    }
}

/// Bounds every code length by `limit` while keeping the code complete and
/// keeping which symbols are used: lengths above the limit are traded down
/// (see `redistribute`) and the resulting lengths are dealt out, longest
/// first, to the used symbols taken by decreasing unlimited length and then
/// by increasing symbol index.
fn limit_code_lengths(lengths: &mut Vec<u32>, limit: u32, Ghost(h): Ghost<nat>)
    requires
        1 <= limit <= 255,
        old(lengths).len() < 0x8000_0000,
        forall|i: int| 0 <= i < old(lengths).len() ==> old(lengths)[i] <= h,
        h < u32::MAX,
        kraft(ints32(old(lengths)@), h) == pow2(h),
        support(old(lengths)@).len() <= pow2(limit as nat),
    ensures
        final(lengths).len() == old(lengths).len(),
        support(final(lengths)@) == support(old(lengths)@),
        forall|i: int| 0 <= i < final(lengths).len() ==> final(lengths)[i] <= limit,
        kraft(ints32(final(lengths)@), limit as nat) == pow2(limit as nat),
        (forall|i: int| 0 <= i < old(lengths).len() ==> old(lengths)[i] <= limit) ==> final(lengths)@
            == old(lengths)@,
        forall|i: int|
            0 <= i < final(lengths).len() ==> final(lengths)[i] as int == #[trigger] limited(
                old(lengths)@,
                limit as int,
            )[i],
{
    let ghost old_ls = ints32(lengths@);
    let max_len = max_of(lengths);
    let ghost m = max_len as nat;
    proof {
        if lengths.len() == 0 {
            assert(old_ls =~= Seq::<int>::empty());
        }
        if m <= h {
            lemma_kraft_scale(old_ls, m, h);
            lemma_pow2_adds((h - m) as nat, m);
            lemma_pow2_pos((h - m) as nat);
            let p = pow2((h - m) as nat) as int;
            let k = kraft(old_ls, m) as int;
            let pm = pow2(m) as int;
            assert(k == pm) by (nonlinear_arith)
                requires
                    p * k == p * pm,
                    p > 0,
            ;
        }
    }
    if max_len <= limit {
        proof {
            lemma_kraft_scale(old_ls, m, limit as nat);
            lemma_pow2_adds((limit - m) as nat, m);
        }
        return;
    }
    assert(kraft(old_ls, m) == pow2(m));
    let n = lengths.len();
    let mut count: Vec<u32> = vec![0u32; (max_len + 1) as usize];
    proof {
        assert forall|l: int| 0 <= l < count.len() implies count[l] == 0 by {
            assert(cloned(0u32, count@[l]));
        }
        assert forall|l: int| 0 <= l < count.len() implies count[l] == 0 by {}
        assert(count_kraft(count@, m, m + 1) == 0) by {
            lemma_count_zero_above(count@, m, 1, m + 1);
        }
        assert(count_total(count@, m + 1) == 0) by {
            lemma_count_zero_above(count@, m, 1, m + 1);
        }
        assert(lengths@.take(0) =~= Seq::<u32>::empty());
        assert(ints32(lengths@.take(0)) =~= Seq::<int>::empty());
        assert(Set::new(|i: int| 0 <= i < 0 && lengths@[i] > 0) =~= Set::<int>::empty());
    }
    let mut k: usize = 0;
    while k < n
        invariant
            n == lengths.len(),
            n < u32::MAX,
            k <= n,
            m == max_len,
            count.len() == max_len + 1,
            count[0] == 0,
            forall|i: int| 0 <= i < n ==> lengths[i] <= max_len,
            count_kraft(count@, m, m + 1) == kraft(ints32(lengths@.take(k as int)), m),
            Set::new(|i: int| 0 <= i < k && lengths@[i] > 0).finite(),
            count_total(count@, m + 1) == Set::new(|i: int| 0 <= i < k && lengths@[i] > 0).len(),
            forall|l: int| 1 <= l <= m ==> count[l] == #[trigger] occurrences(lengths@, l, k as int),
        decreases n - k,
    {
        let l = lengths[k];
        let ghost c0 = count@;
        let ghost before = Set::new(|i: int| 0 <= i < k && lengths@[i] > 0);
        let ghost after = Set::new(|i: int| 0 <= i < k + 1 && lengths@[i] > 0);
        proof {
            lemma_support_prefix_finite(lengths@, k as int);
            assert(ints32(lengths@.take(k + 1)).drop_last() =~= ints32(lengths@.take(k as int)));
        }
        if l > 0 {
            proof {
                lemma_count_bound(c0, m + 1, l as int);
            }
            let c = count[l as usize];
            count.set(l as usize, c + 1);
            proof {
                lemma_count_update(c0, m, m + 1, l as int, (c + 1) as u32);
                let p = pow2((m - l) as nat) as int;
                assert((c + 1) * p == c * p + p) by (nonlinear_arith);
                assert(ints32(lengths@.take(k + 1)).last() == l);
                assert(after =~= before.insert(k as int));
                assert(!before.contains(k as int));
            }
        } else {
            proof {
                assert(ints32(lengths@.take(k + 1)).last() == 0);
                assert(after =~= before);
            }
        }
        proof {
            assert forall|x: int| 1 <= x <= m implies count[x] == #[trigger] occurrences(lengths@, x, k + 1) by {
                assert(occurrences(lengths@, x, k + 1) == occurrences(lengths@, x, k as int) + if lengths@[k as int] == x {
                    1nat
                } else {
                    0nat
                });
            }
        }
        k += 1;
    }
    let ghost total = count_total(count@, m + 1);
    proof {
        assert(lengths@.take(n as int) =~= lengths@);
        assert(Set::new(|i: int| 0 <= i < n && lengths@[i] > 0) =~= support(lengths@));
    }
    proof {
        lemma_support_bound(lengths@);
    }
    proof {
        assert(count@ =~= length_counts(lengths@, m as int));
    }
    redistribute(&mut count, limit, max_len, Ghost(total));
    let ghost cnt = count@;
    let ghost lim = limit as nat;
    proof {
        lemma_count_zero_above(cnt, m, lim + 1, m + 1);
        lemma_count_zero_above(cnt, lim, lim + 1, m + 1);
        lemma_count_scale(cnt, m, lim, lim + 1);
        lemma_pow2_adds((m - lim) as nat, lim);
        lemma_pow2_pos((m - lim) as nat);
        let p = pow2((m - lim) as nat) as int;
        let kk = count_kraft(cnt, lim, lim + 1) as int;
        let pl = pow2(lim) as int;
        assert(kk == pl) by (nonlinear_arith)
            requires
                p * kk == p * pl,
                p > 0,
        ;
    }
    let mut new: Vec<u32> = vec![0u32; n];
    proof {
        assert forall|i: int| 0 <= i < new.len() implies new[i] == 0 by {
            assert(cloned(0u32, new@[i]));
        }
        lemma_kraft_zeros(n as nat, lim);
        assert(ints32(new@) =~= Seq::new(n as nat, |i: int| 0int));
        assert(handled(lengths@, m as int, 0) =~= Set::<int>::empty());
        lemma2_to64();
    }
    let mut cur: u32 = limit;
    let mut left: u32 = count[limit as usize];
    let mut l: u32 = max_len;
    while l >= 1
        invariant
            n == lengths.len(),
            new.len() == n,
            l <= max_len,
            m == max_len,
            lim == limit,
            1 <= limit < max_len,
            limit <= 255,
            count@ == cnt,
            cnt.len() == m + 1,
            1 <= cur <= limit,
            left <= cnt[cur as int],
            forall|i: int| 0 <= i < n ==> lengths[i] <= max_len,
            support(lengths@).finite(),
            support(lengths@).len() == total,
            handled(lengths@, l as int, 0).subset_of(support(lengths@)),
            handled(lengths@, l as int, 0).len() + count_total(cnt, cur as nat) + left == total,
            kraft(ints32(new@), lim) + count_kraft(cnt, lim, cur as nat) + left * pow2((lim - cur) as nat) == pow2(lim),
            forall|s: int| 0 <= s < n ==> (new[s] > 0 <==> #[trigger] handled(lengths@, l as int, 0).contains(s)),
            forall|s: int| 0 <= s < n && new[s] > 0 ==> cur <= #[trigger] new[s] <= limit,
            forall|s: int|
                0 <= s < n && new[s] > 0 ==> new[s] == #[trigger] level_at(
                    cnt,
                    lim as int,
                    handled(lengths@, lengths@[s] as int, s).len() as int,
                ),
            count_total(cnt, (lim + 1) as nat) == total,
        decreases l,
    {
        let mut i: usize = 0;
        proof {
            lemma_len_subset(handled(lengths@, l as int, 0), support(lengths@));
        }
        while i < n
            invariant
                n == lengths.len(),
                new.len() == n,
                1 <= l <= max_len,
                i <= n,
                m == max_len,
                lim == limit,
                1 <= limit < max_len,
                limit <= 255,
                count@ == cnt,
                cnt.len() == m + 1,
                1 <= cur <= limit,
                left <= cnt[cur as int],
                forall|x: int| 0 <= x < n ==> lengths[x] <= max_len,
                support(lengths@).finite(),
                support(lengths@).len() == total,
                handled(lengths@, l as int, i as int).subset_of(support(lengths@)),
                handled(lengths@, l as int, i as int).finite(),
                handled(lengths@, l as int, i as int).len() + count_total(cnt, cur as nat) + left == total,
                kraft(ints32(new@), lim) + count_kraft(cnt, lim, cur as nat) + left * pow2((lim - cur) as nat) == pow2(lim),
                forall|s: int| 0 <= s < n ==> (new[s] > 0 <==> #[trigger] handled(lengths@, l as int, i as int).contains(s)),
                forall|s: int| 0 <= s < n && new[s] > 0 ==> cur <= #[trigger] new[s] <= limit,
                forall|s: int|
                    0 <= s < n && new[s] > 0 ==> new[s] == #[trigger] level_at(
                        cnt,
                        lim as int,
                        handled(lengths@, lengths@[s] as int, s).len() as int,
                    ),
                count_total(cnt, (lim + 1) as nat) == total,
            decreases n - i,
        {
            let ghost hd = handled(lengths@, l as int, i as int);
            let ghost hd1 = handled(lengths@, l as int, i + 1);
            if lengths[i] == l {
                proof {
                    assert(hd1 =~= hd.insert(i as int));
                    assert(!hd.contains(i as int));
                    assert(support(lengths@).contains(i as int));
                    assert(hd1.subset_of(support(lengths@)));
                    lemma_len_subset(hd1, support(lengths@));
                }
                while left == 0
                    invariant
                        1 <= cur <= limit,
                        limit <= 255,
                        lim == limit,
                        count@ == cnt,
                        cnt.len() == m + 1,
                        1 <= limit < max_len,
                        m == max_len,
                        left <= cnt[cur as int],
                        count_total(cnt, cur as nat) + left > 0,
                        hd.len() + count_total(cnt, cur as nat) + left == total,
                        kraft(ints32(new@), lim) + count_kraft(cnt, lim, cur as nat) + left * pow2((lim - cur) as nat) == pow2(lim),
                        forall|s: int| 0 <= s < n && new[s] > 0 ==> cur <= #[trigger] new[s] <= limit,
                        new.len() == n,
                    decreases cur,
                {
                    proof {
                        lemma_pow2_unfold((lim - (cur - 1)) as nat);
                    }
                    cur -= 1;
                    left = count[cur as usize];
                }
                proof {
                    lemma_count_bound(cnt, (lim + 1) as nat, cur as int);
                    assert(count_total(cnt, (cur + 1) as nat) == count_total(cnt, cur as nat) + cnt[cur as int]);
                    lemma_level_at(cnt, lim as int, cur as int, cnt[cur as int] - left);
                    assert(hd.len() == count_total(cnt, (lim + 1) as nat) - count_total(cnt, (cur + 1) as nat) + (cnt[cur as int] - left));
                    lemma_kraft_update(ints32(new@), i as int, cur as int, lim);
                    assert(ints32(new@.update(i as int, cur)) =~= ints32(new@).update(i as int, cur as int));
                    let p = pow2((lim - cur) as nat) as int;
                    assert((left - 1) * p + p == left * p) by (nonlinear_arith);
                }
                new.set(i, cur);
                left -= 1;
            } else {
                proof {
                    assert(hd1 =~= hd);
                }
            }
            i += 1;
        }
        proof {
            assert(handled(lengths@, l as int, n as int) =~= handled(lengths@, l - 1, 0));
        }
        l -= 1;
    }
    proof {
        assert(handled(lengths@, 0, 0) =~= support(lengths@));
        assert(count_total(cnt, cur as nat) == 0 && left == 0);
        assert forall|x: int| 1 <= x < cur implies cnt[x] == 0 by {
            lemma_count_bound(cnt, cur as nat, x);
        }
        lemma_count_zero_above(cnt, lim, 1, cur as nat);
        assert(support(new@) =~= support(lengths@));
        assert(cnt == redistributed(length_counts(lengths@, m as int), m as int, lim as int));
        assert forall|i: int| 0 <= i < new.len() implies new[i] as int == #[trigger] limited(
            lengths@,
            lim as int,
        )[i] by {
            if lengths@[i] == 0 {
                assert(!support(lengths@).contains(i));
                assert(!support(new@).contains(i));
            } else {
                assert(support(lengths@).contains(i));
                assert(support(new@).contains(i));
            }
        }
    }
    *lengths = new;
}


/// What the code lengths built for `histogram` under `limit` satisfy: one
/// per symbol, none above the limit (or one bit, for a limit of 0); with no symbol used, a single one-bit
/// code for symbol 0; otherwise exactly the used symbols get a code, a lone
/// used symbol a one-bit code, and two or more a complete prefix code (a
/// Kraft sum of exactly one); and they are exactly `huffman_lengths`.
pub open spec fn lengths_for(histogram: Seq<u32>, limit: nat, lengths: Seq<u8>) -> bool {
    &&& lengths.len() == histogram.len()
    &&& forall|i: int| 0 <= i < lengths.len() ==> lengths[i] <= (if limit >= 1 {
        limit
    } else {
        1
    })
    &&& support(histogram).len() == 0 ==> lengths[0] == 1 && forall|i: int|
        1 <= i < lengths.len() ==> lengths[i] == 0
    &&& support(histogram).len() > 0 ==> forall|i: int|
        0 <= i < lengths.len() ==> (lengths[i] > 0 <==> histogram[i] > 0)
    &&& support(histogram).len() == 1 ==> forall|i: int|
        0 <= i < lengths.len() && histogram[i] > 0 ==> lengths[i] == 1
    &&& support(histogram).len() >= 2 ==> kraft(ints8(lengths), limit) == pow2(limit)
    &&& forall|i: int| 0 <= i < lengths.len() ==> lengths[i] as int == #[trigger] huffman_lengths(
        histogram,
        limit as int,
    )[i]
}

/// The code lengths built for `histogram` under `limit`: with no symbol
/// used, one bit for symbol 0; with one, one bit for it; otherwise the
/// Huffman depths, bounded by `limit`.
pub open spec fn huffman_lengths(histogram: Seq<u32>, limit: int) -> Seq<int> {
    if support(histogram).len() == 0 {
        Seq::new(
            histogram.len(),
            |i: int|
                if i == 0 {
                    1int
                } else {
                    0int
                },
        )
    } else if support(histogram).len() == 1 {
        Seq::new(
            histogram.len(),
            |i: int|
                if histogram[i] > 0 {
                    1int
                } else {
                    0int
                },
        )
    } else {
        limited(Seq::new(histogram.len(), |i: int| huffman_depths(histogram)[i] as u32), limit)
    }
}

/// Code lengths (0 = unused) for `histogram`: a Huffman code built by
/// repeatedly merging the two lightest trees, then limited to `limit` bits.
/// An alphabet with no used symbol gets a single one-bit code for symbol 0,
/// and one with a single used symbol gives it a one-bit code: a
/// single-leaf tree.
pub fn code_lengths_from_histogram(histogram: &Vec<u32>, limit: u32) -> (lengths: Vec<u8>)
    requires
        1 <= histogram.len() < 0x8000_0000,
        limit <= 255,
        support(histogram@).len() <= pow2(limit as nat),
    ensures
        lengths_for(histogram@, limit as nat, lengths@),
        forall|i: int|
            0 <= i < lengths.len() ==> lengths[i] as int == #[trigger] huffman_lengths(
                histogram@,
                limit as int,
            )[i],
{
    let n = histogram.len();
    let mut used: Vec<(usize, u32)> = Vec::new();
    let mut k: usize = 0;
    proof {
        assert(Set::new(|i: int| 0 <= i < 0 && histogram@[i] > 0) =~= Set::<int>::empty());
    }
    while k < n
        invariant
            n == histogram.len(),
            n < 0x8000_0000,
            k <= n,
            used.len() <= k,
            forall|j: int| 0 <= j < used.len() ==> (#[trigger] used[j]).0 < k,
            forall|a: int, b: int| 0 <= a < b < used.len() ==> (#[trigger] used[a]).0 < (#[trigger] used[b]).0,
            forall|j: int| 0 <= j < used.len() ==> histogram[(#[trigger] used[j]).0 as int] > 0,
            forall|i: int| 0 <= i < k ==> (histogram[i] > 0 <==> #[trigger] used_syms(used@).contains(i as u32)),
            forall|s: u32| #[trigger] used_syms(used@).contains(s) ==> (s as int) < k,
            Set::new(|i: int| 0 <= i < k && histogram@[i] > 0).finite(),
            used.len() == Set::new(|i: int| 0 <= i < k && histogram@[i] > 0).len(),
            used@ == used_upto(histogram@, k as int),
        decreases n - k,
    {
        let ghost before = Set::new(|i: int| 0 <= i < k && histogram@[i] > 0);
        let ghost after = Set::new(|i: int| 0 <= i < k + 1 && histogram@[i] > 0);
        let ghost u0 = used@;
        proof {
            lemma_support_prefix_finite(histogram@, k as int);
        }
        if histogram[k] > 0 {
            used.push((k, histogram[k]));
            proof {
                assert(used@.drop_last() == u0);
                assert(used_syms(used@) == used_syms(u0).insert(k as u32));
                assert((k as u32) as int == k);
                assert(after =~= before.insert(k as int));
                assert(!before.contains(k as int));
                assert forall|i: int| 0 <= i < k + 1 implies (histogram[i] > 0 <==> #[trigger] used_syms(used@).contains(i as u32)) by {
                    if i < k {
                        assert((i as u32) != (k as u32));
                    }
                }
            }
        } else {
            proof {
                assert(after =~= before);
                assert forall|i: int| 0 <= i < k + 1 implies (histogram[i] > 0 <==> #[trigger] used_syms(used@).contains(i as u32)) by {
                    if i == k {
                        assert(!used_syms(used@).contains(k as u32));
                    }
                }
            }
        }
        k += 1;
    }
    proof {
        assert(Set::new(|i: int| 0 <= i < n && histogram@[i] > 0) =~= support(histogram@));
    }
    if used.len() == 0 {
        let mut lengths: Vec<u8> = vec![0u8; n];
        proof {
            assert forall|i: int| 0 <= i < lengths.len() implies lengths[i] == 0 by {
                assert(cloned(0u8, lengths@[i]));
            }
        }
        lengths.set(0, 1);
        return lengths;
    }
    if used.len() == 1 {
        let mut lengths: Vec<u8> = vec![0u8; n];
        proof {
            assert forall|i: int| 0 <= i < lengths.len() implies lengths[i] == 0 by {
                assert(cloned(0u8, lengths@[i]));
            }
            assert(used@.drop_last() =~= Seq::<(usize, u32)>::empty());
            assert(used_syms(used@.drop_last()) == Set::<u32>::empty());
            assert(used_syms(used@) == Set::<u32>::empty().insert(used[0].0 as u32));
        }
        lengths.set(used[0].0, 1);
        proof {
            assert forall|i: int| 0 <= i < lengths.len() implies (lengths[i] > 0 <==> histogram[i] > 0) by {
                if histogram[i] > 0 {
                    assert(used_syms(used@).contains(i as u32));
                    assert(i == used[0].0);
                }
            }
        }
        return lengths;
    }
    let root = build_tree(&used, Ghost(n as nat));
    let mut depths: Vec<u32> = vec![0u32; n];
    proof {
        assert forall|i: int| 0 <= i < depths.len() implies depths[i] == 0 by {
            assert(cloned(0u32, depths@[i]));
        }
        lemma_kraft_zeros(n as nat, n as nat);
        assert(ints32(depths@) =~= Seq::new(n as nat, |i: int| 0int));
        lemma_height_below_leaf_count(root);
        lemma_used_syms_len(used@);
        match &root {
            Tree::Node(a, b) => {
                lemma_tree_kraft(**a, 1, n as nat);
                lemma_tree_kraft(**b, 1, n as nat);
                lemma_pow2_unfold(n as nat);
            },
            Tree::Leaf(_) => {},
        }
    }
    assign_depths(&root, 0, &mut depths, Ghost(n as nat));
    proof {
        assert forall|i: int| 0 <= i < n implies (depths[i] > 0 <==> histogram[i] > 0) by {
            if histogram[i] > 0 {
                assert(leaves(root).contains(i as u32));
            } else {
                assert(!leaves(root).contains(i as u32));
                assert(!leaves(root).contains((i as u32) as int as u32));
            }
        }
        assert(support(depths@) =~= support(histogram@));
        assert forall|i: int| 0 <= i < depths.len() implies depths[i] <= n as nat by {
            if leaves(root).contains(i as u32) {
            } else {
                assert((i as u32) as int == i);
            }
        }
    }
    proof {
        assert forall|i: int| 0 <= i < n implies depths@[i] as int == #[trigger] huffman_depths(
            histogram@,
        )[i] by {
            if !leaves(root).contains(i as u32) {
                lemma_leaf_depth_absent(root, 0, i as u32);
            }
        }
    }
    let ghost pre_limit = depths@;
    proof {
        if limit == 0 {
            lemma2_to64();
            assert(support(histogram@).len() >= 2);
        }
    }
    limit_code_lengths(&mut depths, limit, Ghost(n as nat));
    let mut lengths: Vec<u8> = Vec::new();
    let mut i: usize = 0;
    while i < n
        invariant
            n == depths.len(),
            i <= n,
            lengths.len() == i,
            limit <= 255,
            forall|j: int| 0 <= j < n ==> depths[j] <= limit,
            forall|j: int| 0 <= j < i ==> lengths[j] as int == depths[j] as int,
        decreases n - i,
    {
        lengths.push(depths[i] as u8);
        i += 1;
    }
    proof {
        assert(pre_limit =~= Seq::new(n as nat, |i: int| huffman_depths(histogram@)[i] as u32));
        assert(ints8(lengths@) =~= ints32(depths@));
        assert forall|j: int| 0 <= j < n implies (lengths[j] > 0 <==> histogram[j] > 0) by {
            assert(support(depths@).contains(j) == support(histogram@).contains(j));
        }
    }
    lengths
}


/// How many entries of `ls` equal `l`.
pub open spec fn count_of(ls: Seq<u8>, l: int) -> nat
    decreases ls.len(),
{
    if ls.len() == 0 {
        0
    } else {
        count_of(ls.drop_last(), l) + if ls.last() == l {
            1nat
        } else {
            0nat
        }
    }
}

/// `sum_{1 <= l < upto} count_of(ls, l) * 2^(top - l)`.
pub open spec fn level_mass(ls: Seq<u8>, top: nat, upto: nat) -> nat
    decreases upto,
{
    if upto <= 1 {
        0
    } else {
        level_mass(ls, top, (upto - 1) as nat) + count_of(ls, upto - 1) * pow2(
            (top - (upto - 1)) as nat,
        )
    }
}

/// The first canonical code of length `len`: the Kraft mass, scaled to
/// `2^len`, of every shorter code.
pub open spec fn first_code(ls: Seq<u8>, len: nat) -> nat {
    level_mass(ls, len, len)
}

/// The canonical code of symbol `s`: codes are handed out in order of
/// increasing length, then increasing symbol index, each length starting
/// at its first code.
pub open spec fn canonical_code(ls: Seq<u8>, s: int) -> nat {
    first_code(ls, ls[s] as nat) + count_of(ls.take(s), ls[s] as int)
}

proof fn lemma_level_mass_scale(ls: Seq<u8>, top: nat, k: nat, upto: nat)
    requires
        upto <= k + 1,
        k <= top,
    ensures
        level_mass(ls, top, upto) == pow2((top - k) as nat) * level_mass(ls, k, upto),
    decreases upto,
{
    if upto > 1 {
        lemma_level_mass_scale(ls, top, k, (upto - 1) as nat);
        let l = upto - 1;
        lemma_pow2_adds((top - k) as nat, (k - l) as nat);
        let a = level_mass(ls, k, (upto - 1) as nat);
        let p = pow2((top - k) as nat);
        let q = pow2((k - l) as nat);
        let c = count_of(ls, l);
        assert(((top - k) as nat + (k - l) as nat) as nat == (top - l) as nat);
        let lhs = level_mass(ls, top, upto);
        let rhs = level_mass(ls, k, upto);
        assert(lhs == p * rhs) by (nonlinear_arith)
            requires
                lhs == p * a + c * (p * q),
                rhs == a + c * q,
        ;
    } else {
        assert(pow2((top - k) as nat) * 0 == 0);
    }
}

proof fn lemma_level_mass_mono(ls: Seq<u8>, top: nat, a: nat, b: nat)
    requires
        a <= b,
    ensures
        level_mass(ls, top, a) <= level_mass(ls, top, b),
    decreases b,
{
    if a < b {
        lemma_level_mass_mono(ls, top, a, (b - 1) as nat);
    }
}

proof fn lemma_level_mass_push(ls: Seq<u8>, top: nat, upto: nat)
    requires
        ls.len() > 0,
    ensures
        level_mass(ls, top, upto) == level_mass(ls.drop_last(), top, upto) + if 1 <= ls.last()
            < upto {
            pow2((top - ls.last()) as nat)
        } else {
            0
        },
    decreases upto,
{
    if upto > 1 {
        lemma_level_mass_push(ls, top, (upto - 1) as nat);
        let l = upto - 1;
        let c = count_of(ls.drop_last(), l);
        let b = if ls.last() == l { 1nat } else { 0nat };
        let p = pow2((top - l) as nat);
        assert(count_of(ls, l) == c + b);
        assert((c + b) * p == c * p + b * p) by (nonlinear_arith);
    }
}

/// With no length above `top`, the Kraft sum is the mass of every level.
proof fn lemma_kraft_level_mass(ls: Seq<u8>, top: nat)
    requires
        forall|i: int| 0 <= i < ls.len() ==> ls[i] <= top,
    ensures
        kraft(ints8(ls), top) == level_mass(ls, top, top + 1),
    decreases ls.len(),
{
    if ls.len() == 0 {
        lemma_level_mass_zero(ls, top, top + 1);
    } else {
        lemma_kraft_level_mass(ls.drop_last(), top);
        lemma_level_mass_push(ls, top, top + 1);
        assert(ints8(ls).drop_last() =~= ints8(ls.drop_last()));
    }
}

proof fn lemma_level_mass_zero(ls: Seq<u8>, top: nat, upto: nat)
    requires
        ls.len() == 0,
    ensures
        level_mass(ls, top, upto) == 0,
    decreases upto,
{
    if upto > 1 {
        lemma_level_mass_zero(ls, top, (upto - 1) as nat);
        assert(count_of(ls, upto - 1) == 0);
        assert(0 * pow2((top - (upto - 1)) as nat) == 0);
    }
}

proof fn lemma_count_of_take(ls: Seq<u8>, a: int, b: int, l: int)
    requires
        0 <= a <= b <= ls.len(),
    ensures
        count_of(ls.take(a), l) <= count_of(ls.take(b), l),
        b < ls.len() ==> count_of(ls.take(b + 1), l) == count_of(ls.take(b), l) + if ls[b] == l {
            1nat
        } else {
            0nat
        },
    decreases b - a,
{
    if b < ls.len() {
        assert(ls.take(b + 1).drop_last() =~= ls.take(b));
    }
    if a < b {
        lemma_count_of_take(ls, a, b - 1, l);
        assert(ls.take(b).drop_last() =~= ls.take(b - 1));
    }
}

/// The first code of each length, and how far it leaves room for that
/// length's own codes, under a Kraft sum of at most one.
proof fn lemma_first_code(ls: Seq<u8>, len: nat)
    requires
        1 <= len <= 15,
        forall|i: int| 0 <= i < ls.len() ==> ls[i] <= 15,
        kraft(ints8(ls), 15) <= pow2(15),
    ensures
        first_code(ls, len) + count_of(ls, len as int) <= pow2(len),
        len >= 2 ==> first_code(ls, len) == 2 * (first_code(ls, (len - 1) as nat) + count_of(
            ls,
            len - 1,
        )),
        len == 1 ==> first_code(ls, len) == 0,
{
    lemma_kraft_level_mass(ls, 15);
    lemma_level_mass_mono(ls, 15, len + 1, 16);
    lemma_level_mass_scale(ls, 15, len, len + 1);
    lemma_pow2_adds((15 - len) as nat, len);
    lemma_pow2_pos((15 - len) as nat);
    lemma2_to64();
    let p = pow2((15 - len) as nat) as int;
    let x = level_mass(ls, len, len + 1) as int;
    let pl = pow2(len) as int;
    assert(x <= pl) by (nonlinear_arith)
        requires
            p * x <= p * pl,
            p > 0,
    ;
    assert(pow2(0) == 1);
    assert(count_of(ls, len as int) * 1 == count_of(ls, len as int));
    assert(x == first_code(ls, len) + count_of(ls, len as int));
    lemma_first_code_step(ls, len);
}

/// Each first code doubles the one before plus that length's codes.
proof fn lemma_first_code_step(ls: Seq<u8>, len: nat)
    requires
        1 <= len <= 15,
    ensures
        len >= 2 ==> first_code(ls, len) == 2 * (first_code(ls, (len - 1) as nat) + count_of(
            ls,
            len - 1,
        )),
        len == 1 ==> first_code(ls, len) == 0,
{
    if len >= 2 {
        lemma_level_mass_scale(ls, len, (len - 1) as nat, (len - 1) as nat);
        lemma2_to64();
        assert(pow2(1) == 2);
        let a = level_mass(ls, (len - 1) as nat, (len - 1) as nat);
        let c = count_of(ls, len - 1);
        assert(((len - (len - 1)) as nat) == 1);
        assert(level_mass(ls, len, len) == level_mass(ls, len, (len - 1) as nat) + c * pow2(1));
        assert(level_mass(ls, len, (len - 1) as nat) == 2 * a);
        assert(2 * a + c * 2 == 2 * (a + c)) by (nonlinear_arith);
    }
}

/// No length is counted more often than there are symbols.
proof fn lemma_count_of_le_len(ls: Seq<u8>, l: int)
    ensures
        count_of(ls, l) <= ls.len(),
    decreases ls.len(),
{
    if ls.len() > 0 {
        lemma_count_of_le_len(ls.drop_last(), l);
    }
}

/// However the lengths fall, the mass of the levels below `upto` leaves
/// room for `ls.len()` codes at level `upto - 1`, scaled to `2^top`.
proof fn lemma_level_mass_bound(ls: Seq<u8>, top: nat, upto: nat)
    requires
        1 <= upto <= top + 1,
    ensures
        level_mass(ls, top, upto) + ls.len() * pow2((top + 1 - upto) as nat) <= ls.len() * pow2(top),
    decreases upto,
{
    if upto > 1 {
        lemma_level_mass_bound(ls, top, (upto - 1) as nat);
        let n = ls.len();
        let c = count_of(ls, upto - 1);
        lemma_count_of_le_len(ls, upto - 1);
        let q = pow2((top - (upto - 1)) as nat);
        lemma_pow2_unfold((top + 1 - (upto - 1)) as nat);
        assert(pow2((top + 1 - (upto - 1)) as nat) == 2 * q);
        assert(c * q <= n * q) by (nonlinear_arith)
            requires
                c <= n,
        ;
        assert(n * (2 * q) == 2 * (n * q)) by (nonlinear_arith);
    }
}

/// Without any bound on the Kraft sum, the first code of a length stays
/// below `ls.len() * 2^len`.
proof fn lemma_first_code_bound(ls: Seq<u8>, len: nat)
    requires
        1 <= len <= 15,
    ensures
        first_code(ls, len) + 2 * ls.len() <= ls.len() * pow2(len),
{
    lemma_level_mass_bound(ls, len, len);
    lemma2_to64();
    assert(((len + 1 - len) as nat) == 1);
    assert(pow2(1) == 2);
    let n = ls.len();
    assert(n * 2 == 2 * n) by (nonlinear_arith);
    assert(pow2((len + 1 - len) as nat) == pow2(1));
}

/// A later length's first code lies past every code of an earlier length,
/// scaled up to the later length.
proof fn lemma_first_code_grows(ls: Seq<u8>, a: nat, b: nat)
    requires
        1 <= a < b <= 15,
    ensures
        first_code(ls, b) >= (first_code(ls, a) + count_of(ls, a as int)) * pow2((b - a) as nat),
    decreases b - a,
{
    lemma_first_code_step(ls, b);
    if b == a + 1 {
        lemma2_to64();
        assert(pow2(1) == 2);
        assert(((b - a) as nat) == 1);
        let x = first_code(ls, a) + count_of(ls, a as int);
        assert(x * 2 == 2 * x) by (nonlinear_arith);
    } else {
        lemma_first_code_grows(ls, a, (b - 1) as nat);
        let x = first_code(ls, a) + count_of(ls, a as int);
        let q = pow2((b - 1 - a) as nat);
        lemma_pow2_unfold((b - a) as nat);
        assert(pow2((b - a) as nat) == 2 * q);
        let f = first_code(ls, (b - 1) as nat);
        let c = count_of(ls, b - 1);
        assert(2 * (f + c) >= 2 * f);
        assert(2 * f >= x * (2 * q)) by (nonlinear_arith)
            requires
                f >= x * q,
        ;
    }
}

/// A used symbol's rank among the symbols of its length stays below their
/// number, and rises with the symbol.
proof fn lemma_rank(ls: Seq<u8>, s: int, t: int)
    requires
        0 <= s < t < ls.len(),
        ls[s] == ls[t],
    ensures
        count_of(ls.take(s), ls[s] as int) < count_of(ls.take(t), ls[s] as int),
        count_of(ls.take(t), ls[t] as int) < count_of(ls, ls[t] as int),
{
    let l = ls[s] as int;
    lemma_count_of_take(ls, s + 1, t, l);
    lemma_count_of_take(ls, s, s, l);
    lemma_count_of_take(ls, t + 1, ls.len() as int, l);
    lemma_count_of_take(ls, t, t, l);
    assert(ls.take(ls.len() as int) =~= ls);
}

/// Canonical codes form a prefix code: no used symbol's code, read as the
/// first bits of a code at least as long, is another symbol's code. Two
/// codes of one length differ, and a longer code's leading bits lie past
/// every code of the shorter length.
pub proof fn law_canonical_prefix_free(ls: Seq<u8>, s: int, t: int)
    requires
        0 <= s < ls.len(),
        0 <= t < ls.len(),
        s != t,
        forall|i: int| 0 <= i < ls.len() ==> ls[i] <= 15,
        0 < ls[s] <= ls[t],
    ensures
        canonical_code(ls, t) / pow2((ls[t] - ls[s]) as nat) != canonical_code(ls, s),
{
    let a = ls[s] as nat;
    let b = ls[t] as nat;
    lemma_pow2_pos((b - a) as nat);
    if a == b {
        lemma2_to64();
        assert(pow2(0) == 1);
        assert(((b - a) as nat) == 0);
        if s < t {
            lemma_rank(ls, s, t);
        } else {
            lemma_rank(ls, t, s);
        }
    } else {
        lemma_first_code_grows(ls, a, b);
        lemma_count_of_take(ls, s + 1, ls.len() as int, a as int);
        lemma_count_of_take(ls, s, s, a as int);
        assert(ls.take(ls.len() as int) =~= ls);
        assert(count_of(ls.take(s), a as int) < count_of(ls, a as int));
        let x = first_code(ls, a) + count_of(ls, a as int);
        let p = pow2((b - a) as nat);
        let ct = canonical_code(ls, t);
        assert(ct >= x * p);
        assert(ct / p >= x) by (nonlinear_arith)
            requires
                ct >= x * p,
                p > 0,
        ;
    }
}

/// Canonical codes for `lengths` (0 for an unused symbol): see
/// `canonical_code`, kept to 16 bits. Where the lengths form a prefix code
/// (a Kraft sum of at most one), every code fits its length, and codes of
/// one length increase with the symbol.
pub fn canonical_codes(lengths: &Vec<u8>) -> (codes: Vec<u16>)
    requires
        lengths.len() < u32::MAX,
        lengths.len() <= 0x10000 || kraft(ints8(lengths@), MAX_CODE_LENGTH as nat) <= pow2(
            MAX_CODE_LENGTH as nat,
        ),
        forall|i: int| 0 <= i < lengths.len() ==> lengths[i] <= MAX_CODE_LENGTH,
    ensures
        codes.len() == lengths.len(),
        forall|s: int|
            0 <= s < lengths.len() && lengths[s] > 0 ==> #[trigger] codes[s] as nat
                == canonical_code(lengths@, s) % 0x10000,
        forall|s: int| 0 <= s < lengths.len() && lengths[s] == 0 ==> #[trigger] codes[s] == 0,
        kraft(ints8(lengths@), MAX_CODE_LENGTH as nat) <= pow2(MAX_CODE_LENGTH as nat) ==> {
            &&& forall|s: int|
                0 <= s < lengths.len() && lengths[s] > 0 ==> #[trigger] codes[s] == canonical_code(
                    lengths@,
                    s,
                )
            &&& forall|s: int|
                0 <= s < lengths.len() ==> (#[trigger] codes[s] as nat) < pow2(lengths[s] as nat)
            &&& forall|s: int, t: int|
                0 <= s < t < lengths.len() && lengths[s] == lengths[t] && lengths[s] > 0
                    ==> #[trigger] codes[s] < #[trigger] codes[t]
        },
{
    let n = lengths.len();
    let ghost ls = lengths@;
    let ghost fits = kraft(ints8(ls), 15) <= pow2(15);
    let mut bl_count: Vec<u32> = vec![0u32; 16];
    proof {
        assert forall|l: int| 0 <= l < 16 implies bl_count[l] == 0 by {
            assert(cloned(0u32, bl_count@[l]));
        }
        assert(ls.take(0) =~= Seq::<u8>::empty());
    }
    let mut k: usize = 0;
    while k < n
        invariant
            n == lengths.len(),
            ls == lengths@,
            n < u32::MAX,
            n <= 0x10000 || kraft(ints8(ls), 15) <= pow2(15),
            k <= n,
            bl_count.len() == 16,
            bl_count[0] == 0,
            forall|i: int| 0 <= i < n ==> lengths[i] <= 15,
            forall|l: int| 1 <= l < 16 ==> #[trigger] bl_count[l] == count_of(ls.take(k as int), l),
            forall|l: int| 1 <= l < 16 ==> #[trigger] bl_count[l] <= k,
        decreases n - k,
    {
        let l = lengths[k];
        proof {
            assert forall|x: int| 1 <= x < 16 implies count_of(ls.take(k + 1), x) == count_of(ls.take(k as int), x) + if ls[k as int] == x { 1nat } else { 0nat } by {
                lemma_count_of_take(ls, k as int, k as int, x);
            }
        }
        if l > 0 {
            let c = bl_count[l as usize];
            bl_count.set(l as usize, c + 1);
        }
        k += 1;
    }
    proof {
        assert(ls.take(n as int) =~= ls);
    }
    let mut next_code: Vec<u32> = vec![0u32; 16];
    let mut code: u32 = 0;
    let mut len: usize = 1;
    while len < 16
        invariant
            ls == lengths@,
            n == ls.len(),
            n < u32::MAX,
            n <= 0x10000 || kraft(ints8(ls), 15) <= pow2(15),
            forall|i: int| 0 <= i < ls.len() ==> ls[i] <= 15,
            1 <= len <= 16,
            bl_count.len() == 16,
            bl_count[0] == 0,
            forall|l: int| 1 <= l < 16 ==> #[trigger] bl_count[l] == count_of(ls, l),
            next_code.len() == 16,
            len >= 2 ==> code == first_code(ls, (len - 1) as nat),
            len == 1 ==> code == 0,
            forall|l: int| 1 <= l < len ==> #[trigger] next_code[l] == first_code(ls, l as nat),
        decreases 16 - len,
    {
        proof {
            lemma_first_code_step(ls, len as nat);
            lemma2_to64();
            if len >= 2 && kraft(ints8(ls), 15) <= pow2(15) {
                let m = (len - 1) as nat;
                lemma_first_code(ls, m);
                lemma_pow2_strictly_increases_to(m);
            } else if len >= 2 {
                let m = (len - 1) as nat;
                lemma_first_code_bound(ls, m);
                lemma_count_of_le_len(ls, m as int);
                lemma_pow2_strictly_increases_to(m);
                if m < 14 {
                    vstd::arithmetic::power2::lemma_pow2_strictly_increases(m, 14);
                }
                assert(pow2(14) == 0x4000);
                let fc = first_code(ls, m);
                let p = pow2(m);
                vstd::arithmetic::mul::lemma_mul_upper_bound(n as int, 0x10000, p as int, 0x4000);
            }
        }
        let prev = bl_count[len - 1];
        let sum = code + prev;
        assert(sum < 0x8000_0000);
        code = sum << 1;
        assert(sum << 1 == 2 * sum) by (bit_vector)
            requires
                sum < 0x8000_0000,
        ;
        next_code.set(len, code);
        len += 1;
    }
    let mut codes: Vec<u16> = Vec::new();
    let mut s: usize = 0;
    proof {
        assert forall|l: int| 1 <= l < 16 implies count_of(ls.take(0), l) == 0 by {
            assert(ls.take(0) =~= Seq::<u8>::empty());
        }
    }
    while s < n
        invariant
            n == lengths.len(),
            ls == lengths@,
            n < u32::MAX,
            n <= 0x10000 || kraft(ints8(ls), 15) <= pow2(15),
            forall|i: int| 0 <= i < ls.len() ==> ls[i] <= 15,
            fits == (kraft(ints8(ls), 15) <= pow2(15)),
            s <= n,
            codes.len() == s,
            next_code.len() == 16,
            forall|l: int| 1 <= l < 16 ==> #[trigger] next_code[l] == first_code(ls, l as nat) + count_of(ls.take(s as int), l),
            forall|t: int| 0 <= t < s && ls[t] > 0 ==> #[trigger] codes[t] as nat == canonical_code(ls, t) % 0x10000,
            forall|t: int| 0 <= t < s && ls[t] == 0 ==> #[trigger] codes[t] == 0,
            fits ==> forall|t: int| 0 <= t < s && ls[t] > 0 ==> #[trigger] codes[t] == canonical_code(ls, t),
            fits ==> forall|t: int| 0 <= t < s ==> (#[trigger] codes[t] as nat) < pow2(ls[t] as nat),
            fits ==> forall|t: int| 0 <= t < s && ls[t] > 0 ==> (#[trigger] codes[t] as nat) < next_code[ls[t] as int],
            fits ==> forall|a: int, b: int|
                0 <= a < b < s && ls[a] == ls[b] && ls[a] > 0 ==> #[trigger] codes[a] < #[trigger] codes[b],
        decreases n - s,
    {
        let l = lengths[s];
        proof {
            assert forall|x: int| 1 <= x < 16 implies count_of(ls.take(s + 1), x) == count_of(ls.take(s as int), x) + if ls[s as int] == x { 1nat } else { 0nat } by {
                lemma_count_of_take(ls, s as int, s as int, x);
            }
        }
        if l > 0 {
            let c = next_code[l as usize];
            proof {
                lemma2_to64();
                lemma_first_code_bound(ls, l as nat);
                lemma_count_of_take(ls, s + 1, n as int, l as int);
                lemma_count_of_take(ls, s as int, n as int, l as int);
                assert(ls.take(n as int) =~= ls);
                lemma_count_of_le_len(ls, l as int);
                lemma_pow2_strictly_increases_to(l as nat);
                let p = pow2(l as nat);
                if fits {
                    lemma_first_code(ls, l as nat);
                } else {
                    vstd::arithmetic::mul::lemma_mul_upper_bound(n as int, 0x10000, p as int, 0x8000);
                }
            }
            let code16 = #[verifier::truncate] (c as u16);
            proof {
                assert(code16 as nat == c as nat % 0x10000) by (bit_vector)
                    requires
                        code16 == c as u16,
                ;
                assert(c as nat == canonical_code(ls, s as int));
            }
            codes.push(code16);
            next_code.set(l as usize, c + 1);
        } else {
            proof {
                lemma2_to64();
            }
            codes.push(0);
        }
        s += 1;
    }
    codes
}

/// `2^e <= 2^15` for `e <= 15`.
proof fn lemma_pow2_strictly_increases_to(e: nat)
    requires
        e <= 16,
    ensures
        pow2(e) <= pow2(16),
        pow2(16) == 0x10000,
        pow2(15) == 0x8000,
        e <= 15 ==> pow2(e) <= pow2(15),
{
    lemma2_to64();
    if e < 16 {
        vstd::arithmetic::power2::lemma_pow2_strictly_increases(e, 16);
    }
    if e < 15 {
        vstd::arithmetic::power2::lemma_pow2_strictly_increases(e, 15);
    }
}


/// The number whose low `n` bits are those of `value` in reverse order.
pub open spec fn bit_reverse(value: u32, n: nat) -> nat {
    bits_value(bits_of(value, n).reverse())
}

/// Reversing the low `n` bits twice gives them back.
pub proof fn law_reverse_twice(value: u32, n: nat)
    requires
        n <= 32,
    ensures
        bit_reverse(bit_reverse(value, n) as u32, n) == value as nat % pow2(n),
        bits_of(bit_reverse(value, n) as u32, n) == bits_of(value, n).reverse(),
{
    let r = bits_of(value, n).reverse();
    crate::webp::bitwriter::lemma_bits_of_bits_value(r);
    assert(r.reverse() =~= bits_of(value, n));
    crate::webp::bitwriter::lemma_bits_of_value(value, n);
}

/// Reversing one more bit puts that bit lowest and doubles the rest.
proof fn lemma_bit_reverse_step(value: u32, k: nat)
    ensures
        bit_reverse(value, k + 1) == (value as nat / pow2(k)) % 2 + 2 * bit_reverse(value, k),
{
    let sk = bits_of(value, k);
    let bk = (value as nat / pow2(k)) % 2 == 1;
    assert(bits_of(value, k + 1) =~= sk.push(bk));
    assert(sk.push(bk).reverse() =~= seq![bk] + sk.reverse());
    assert((seq![bk] + sk.reverse()).drop_first() =~= sk.reverse());
}

/// Reverses the low `n` bits of `value`, kept to 16 bits: past 16, the
/// bits shifted in are zeros and the highest fall off.
pub fn reverse_bits(value: u16, n: u8) -> (r: u16)
    ensures
        r as nat == bit_reverse(value as u32, n as nat) % 0x10000,
        n <= 16 ==> r as nat == bit_reverse(value as u32, n as nat),
{
    let mut v: u16 = value;
    let mut r: u16 = 0;
    let mut k: u8 = 0;
    proof {
        lemma2_to64();
        assert(bits_of(value as u32, 0).reverse() =~= Seq::<bool>::empty());
        assert(value as nat / 1 == value as nat);
    }
    while k < n
        invariant
            k <= n,
            v as nat == value as nat / pow2(k as nat),
            r as nat == bit_reverse(value as u32, k as nat) % 0x10000,
            k <= 16 ==> r as nat == bit_reverse(value as u32, k as nat),
            k <= 16 ==> (r as nat) < pow2(k as nat),
        decreases n - k,
    {
        let ghost sk = bits_of(value as u32, k as nat);
        let b: u16 = v & 1;
        proof {
            lemma2_to64();
            assert(b == v % 2) by (bit_vector)
                requires
                    b == v & 1,
            ;
            lemma_bit_reverse_step(value as u32, k as nat);
        }
        let r1: u16 = (r << 1) | b;
        proof {
            if k < 16 {
                lemma_pow2_strictly_increases_to(k as nat);
                lemma_bits_value_bound(sk.reverse());
                assert(sk.reverse().len() == k);
                assert(r1 == 2 * r + b) by (bit_vector)
                    requires
                        r1 == (r << 1) | b,
                        r < 0x8000,
                        b < 2,
                ;
                lemma_pow2_unfold((k + 1) as nat);
            } else {
                if k > 16 {
                    vstd::arithmetic::power2::lemma_pow2_strictly_increases(16, k as nat);
                }
                vstd::arithmetic::div_mod::lemma_basic_div(value as int, pow2(k as nat) as int);
                assert(value as nat / pow2(k as nat) == 0);
                assert(r1 == (2 * r) % 0x10000) by (bit_vector)
                    requires
                        r1 == (r << 1) | b,
                        b == 0,
                ;
                let big = bit_reverse(value as u32, k as nat);
                assert((2 * (big % 0x10000)) % 0x10000 == (2 * big) % 0x10000) by (nonlinear_arith);
            }
        }
        let v1: u16 = v >> 1;
        proof {
            assert(v1 == v / 2) by (bit_vector)
                requires
                    v1 == v >> 1,
            ;
            lemma_pow2_pos(k as nat);
            lemma_pow2_unfold((k + 1) as nat);
            vstd::arithmetic::div_mod::lemma_div_denominator(value as int, pow2(k as nat) as int, 2);
            assert(pow2(k as nat) * 2 == pow2((k + 1) as nat));
        }
        r = r1;
        v = v1;
        k += 1;
    }
    proof {
        if n <= 16 {
            lemma_pow2_strictly_increases_to(n as nat);
        }
    }
    r
}

/// A canonical Huffman code table: `lengths[symbol]` is the code length
/// in bits (0 if the symbol is unused), `codes[symbol]` its canonical code.
pub struct HuffmanTable {
    lengths: Vec<u8>,
    codes: Vec<u16>,
    /// True when exactly one symbol in the alphabet is used: such a
    /// single-leaf tree is transmitted with that symbol's length as 1, but
    /// reading or writing a symbol from it consumes no bits at all.
    single_symbol: bool,
}

impl HuffmanTable {
    pub closed spec fn spec_lengths(&self) -> Seq<u8> {
        self.lengths@
    }

    pub closed spec fn spec_codes(&self) -> Seq<u16> {
        self.codes@
    }

    pub closed spec fn is_single(&self) -> bool {
        self.single_symbol
    }

    /// The codes are the canonical codes of the lengths, which form a
    /// prefix code of at most 15-bit codes.
    pub open spec fn wf(&self) -> bool {
        let ls = self.spec_lengths();
        let cs = self.spec_codes();
        &&& cs.len() == ls.len()
        &&& ls.len() < u32::MAX
        &&& forall|i: int| 0 <= i < ls.len() ==> ls[i] <= MAX_CODE_LENGTH
        &&& kraft(ints8(ls), MAX_CODE_LENGTH as nat) <= pow2(MAX_CODE_LENGTH as nat)
        &&& forall|s: int| 0 <= s < ls.len() && ls[s] > 0 ==> #[trigger] cs[s] == canonical_code(ls, s)
        &&& forall|s: int| 0 <= s < ls.len() && ls[s] == 0 ==> #[trigger] cs[s] == 0
        &&& forall|s: int| 0 <= s < ls.len() ==> (#[trigger] cs[s] as nat) < pow2(ls[s] as nat)
        &&& self.is_single() == (support_size(ints8(ls)) == 1)
    }

    /// The bits that writing `symbol` puts into the stream: its code's
    /// bits, most significant first (the first bit a decoder reads);
    /// nothing for a single-symbol table.
    #[verifier::opaque]
    pub open spec fn symbol_bits(&self, symbol: int) -> Seq<bool> {
        if self.is_single() {
            Seq::empty()
        } else {
            let len = self.spec_lengths()[symbol] as nat;
            bits_of(self.spec_codes()[symbol] as u32, len).reverse()
        }
    }

    pub fn from_histogram(histogram: &Vec<u32>) -> (t: Self)
        requires
            1 <= histogram.len() < 0x8000_0000,
            support(histogram@).len() <= pow2(MAX_CODE_LENGTH as nat),
        ensures
            t.wf(),
            lengths_for(histogram@, MAX_CODE_LENGTH as nat, t.spec_lengths()),
    {
        Self::from_histogram_limited(histogram, MAX_CODE_LENGTH)
    }

    /// Builds a table whose own code lengths never exceed `limit` bits --
    /// used for the meta-alphabet, whose lengths are transmitted via a
    /// fixed-width field too narrow for the general 15-bit cap.
    pub fn from_histogram_limited(histogram: &Vec<u32>, limit: u32) -> (t: Self)
        requires
            1 <= histogram.len() < 0x8000_0000,
            1 <= limit <= MAX_CODE_LENGTH,
            support(histogram@).len() <= pow2(limit as nat),
        ensures
            t.wf(),
            lengths_for(histogram@, limit as nat, t.spec_lengths()),
    {
        let lengths = code_lengths_from_histogram(histogram, limit);
        let ghost ls = lengths@;
        let ghost h = histogram@;
        let n = lengths.len();
        proof {
            lemma_pow2_strictly_increases_to(limit as nat);
            let il = ints8(ls);
            lemma_support_prefix_finite(h, n as int);
            assert(Set::new(|i: int| 0 <= i < n && h[i] > 0) =~= support(h));
            if support(h).len() >= 2 {
                lemma_kraft_scale(il, limit as nat, 15);
                lemma_pow2_adds((15 - limit) as nat, limit as nat);
            } else {
                let i0: int = if support(h).len() == 0 {
                    0
                } else {
                    let c = support(h).choose();
                    assert(support(h).contains(c));
                    c
                };
                if support(h).len() == 1 {
                    assert forall|j: int| 0 <= j < n && j != i0 implies ls[j] == 0 by {
                        if h[j] > 0 {
                            assert(set![i0, j].subset_of(support(h)));
                            vstd::set_lib::lemma_len_subset(set![i0, j], support(h));
                            assert(set![i0, j] =~= Set::<int>::empty().insert(i0).insert(j));
                        }
                    }
                }
                lemma_kraft_zeros(n as nat, 15);
                let z = Seq::new(n as nat, |i: int| 0int);
                lemma_kraft_update(z, i0, 1, 15);
                assert(il =~= z.update(i0, 1));
                vstd::arithmetic::power2::lemma_pow2_strictly_increases(14, 15);
            }
        }
        let codes = canonical_codes(&lengths);
        let mut used: usize = 0;
        let mut k: usize = 0;
        proof {
            assert(ints8(ls.take(0)) =~= Seq::<int>::empty());
        }
        while k < n
            invariant
                n == lengths.len(),
                ls == lengths@,
                k <= n,
                used <= k,
                used == support_size(ints8(ls.take(k as int))),
            decreases n - k,
        {
            proof {
                assert(ints8(ls.take(k + 1)).drop_last() =~= ints8(ls.take(k as int)));
            }
            if lengths[k] > 0 {
                used += 1;
            }
            k += 1;
        }
        proof {
            assert(ls.take(n as int) =~= ls);
        }
        HuffmanTable { lengths, codes, single_symbol: used == 1 }
    }

    pub fn len_of(&self, symbol: usize) -> (l: u8)
        requires
            symbol < self.spec_lengths().len(),
        ensures
            l == self.spec_lengths()[symbol as int],
    {
        self.lengths[symbol]
    }

    /// Writes `symbol`'s canonical code into the bitstream, bit reversed
    /// for the LSB-first `BitWriter` so that a decoder reads the code's
    /// first bit first. Writes nothing at all for a single-symbol table.
    pub fn write_symbol(&self, w: &mut BitWriter, symbol: usize)
        requires
            self.wf(),
            old(w).wf(),
            symbol < self.spec_lengths().len(),
            !self.is_single() ==> self.spec_lengths()[symbol as int] > 0,
        ensures
            final(w).wf(),
            final(w).written() == old(w).written() + self.symbol_bits(symbol as int),
    {
        proof {
            reveal(HuffmanTable::symbol_bits);
        }
        if self.single_symbol {
            assert(old(w).written() + Seq::<bool>::empty() =~= old(w).written());
            return;
        }
        let len = self.lengths[symbol];
        let code = self.codes[symbol];
        let reversed = reverse_bits(code, len);
        proof {
            lemma_bits_value_bound(bits_of(code as u32, len as nat).reverse());
            lemma_pow2_strictly_increases_to(len as nat);
            law_reverse_twice(code as u32, len as nat);
        }
        w.write_bits(reversed as u32, len as u32);
    }
}

/// The leading `a` bits, most significant first, of a `b`-bit value are the
/// bits of the value shifted down by `b - a`.
proof fn lemma_leading_bits(v: u32, a: nat, b: nat)
    requires
        a <= b <= 32,
    ensures
        (v as nat / pow2((b - a) as nat)) < 0x1_0000_0000,
        bits_of(v, b).reverse().take(a as int) == bits_of(
            (v as nat / pow2((b - a) as nat)) as u32,
            a,
        ).reverse(),
{
    let d = (b - a) as nat;
    lemma_pow2_pos(d);
    let q = v as nat / pow2(d);
    assert(q <= v as nat) by (nonlinear_arith)
        requires
            q == v as nat / pow2(d),
            pow2(d) > 0,
    ;
    let lhs = bits_of(v, b).reverse().take(a as int);
    let rhs = bits_of(q as u32, a).reverse();
    assert forall|i: int| 0 <= i < a implies #[trigger] lhs[i] == rhs[i] by {
        let e = (a - 1 - i) as nat;
        lemma_pow2_adds(d, e);
        assert(d + e == (b - 1 - i) as nat);
        lemma_pow2_pos(e);
        vstd::arithmetic::div_mod::lemma_div_denominator(v as int, pow2(d) as int, pow2(e) as int);
        assert(lhs[i] == bits_of(v, b)[(b - 1 - i) as int]);
        assert(rhs[i] == bits_of(q as u32, a)[e as int]);
    }
    assert(lhs =~= rhs);
}

/// A table's codes can be read back unambiguously: in a table of more than
/// one symbol, the bits written for one used symbol never begin the bits
/// written for another.
pub proof fn law_symbol_bits_prefix_free(table: HuffmanTable, s: int, t: int)
    requires
        table.wf(),
        !table.is_single(),
        0 <= s < table.spec_lengths().len(),
        0 <= t < table.spec_lengths().len(),
        s != t,
        table.spec_lengths()[s] > 0,
        table.spec_lengths()[t] > 0,
    ensures
        !table.symbol_bits(s).is_prefix_of(table.symbol_bits(t)),
{
    reveal(HuffmanTable::symbol_bits);
    let ls = table.spec_lengths();
    let cs = table.spec_codes();
    let a = ls[s] as nat;
    let b = ls[t] as nat;
    if a <= b {
        let vs = cs[s] as u32;
        let vt = cs[t] as u32;
        let d = (b - a) as nat;
        lemma_leading_bits(vt, a, b);
        let q = vt as nat / pow2(d);
        law_canonical_prefix_free(ls, s, t);
        assert(q != vs as nat);
        lemma_pow2_adds(a, d);
        lemma_pow2_pos(d);
        assert(q < pow2(a)) by (nonlinear_arith)
            requires
                q == vt as nat / pow2(d),
                vt < pow2(a) * pow2(d),
                pow2(d) > 0,
        ;
        if table.symbol_bits(s).is_prefix_of(table.symbol_bits(t)) {
            let bs = bits_of(vs, a);
            let bq = bits_of(q as u32, a);
            assert(table.symbol_bits(t).subrange(0, a as int) =~= table.symbol_bits(t).take(
                a as int,
            ));
            assert(bs.reverse() =~= bq.reverse());
            assert(bs =~= bq) by {
                assert forall|i: int| 0 <= i < a implies bs[i] == bq[i] by {
                    assert(bs.reverse()[(a - 1 - i) as int] == bq.reverse()[(a - 1 - i) as int]);
                }
            }
            crate::webp::bitwriter::lemma_bits_of_value(vs, a);
            crate::webp::bitwriter::lemma_bits_of_value(q as u32, a);
            vstd::arithmetic::div_mod::lemma_small_mod(vs as nat, pow2(a));
            vstd::arithmetic::div_mod::lemma_small_mod(q, pow2(a));
            assert(false);
        }
    }
}

/// A used entry counts toward the support.
proof fn lemma_support_has(l: Seq<int>, s: int)
    requires
        0 <= s < l.len(),
        l[s] > 0,
    ensures
        support_size(l) >= 1,
    decreases l.len(),
{
    if s < l.len() - 1 {
        lemma_support_has(l.drop_last(), s);
    }
}

/// With a support of one, only one entry is used.
proof fn lemma_support_one(l: Seq<int>, s: int, t: int)
    requires
        0 <= s < l.len(),
        0 <= t < l.len(),
        l[s] > 0,
        l[t] > 0,
        support_size(l) <= 1,
    ensures
        s == t,
    decreases l.len(),
{
    let last = l.len() - 1;
    if s == last && t != last {
        lemma_support_has(l.drop_last(), t);
    } else if t == last && s != last {
        lemma_support_has(l.drop_last(), s);
    } else if s != last && t != last {
        lemma_support_one(l.drop_last(), s, t);
    }
}

/// The bits written for a used symbol of a table of several symbols are
/// as many as its code length.
pub proof fn lemma_symbol_bits_len(table: HuffmanTable, s: int)
    requires
        0 <= s < table.spec_lengths().len(),
    ensures
        table.symbol_bits(s).len() == (if table.is_single() {
            0
        } else {
            table.spec_lengths()[s] as int
        }),
{
    reveal(HuffmanTable::symbol_bits);
}

/// Reading one symbol: where the bits of two used symbols, each followed by
/// more bits, agree, the symbols are one and what follows agrees.
pub proof fn lemma_symbol_bits_parse(table: HuffmanTable, s: int, t: int, x: Seq<bool>, y: Seq<bool>)
    requires
        table.wf(),
        0 <= s < table.spec_lengths().len(),
        0 <= t < table.spec_lengths().len(),
        table.spec_lengths()[s] > 0,
        table.spec_lengths()[t] > 0,
        table.symbol_bits(s) + x == table.symbol_bits(t) + y,
    ensures
        s == t,
        x == y,
{
    let ls = table.spec_lengths();
    let bs = table.symbol_bits(s);
    let bt = table.symbol_bits(t);
    lemma_symbol_bits_len(table, s);
    lemma_symbol_bits_len(table, t);
    if table.is_single() {
        assert(ints8(ls)[s] > 0 && ints8(ls)[t] > 0);
        lemma_support_one(ints8(ls), s, t);
    } else if s != t {
        if bs.len() <= bt.len() {
            assert((bs + x).take(bs.len() as int) =~= bs);
            assert((bt + y).take(bs.len() as int) =~= bt.subrange(0, bs.len() as int));
            assert(bs.is_prefix_of(bt));
            law_symbol_bits_prefix_free(table, s, t);
        } else {
            assert((bt + y).take(bt.len() as int) =~= bt);
            assert((bs + x).take(bt.len() as int) =~= bs.subrange(0, bt.len() as int));
            assert(bt.is_prefix_of(bs));
            law_symbol_bits_prefix_free(table, t, s);
        }
    }
    assert((bs + x).skip(bs.len() as int) =~= x);
    assert((bt + y).skip(bt.len() as int) =~= y);
}

/// The order VP8L transmits the code-length alphabet's own code lengths in.
pub open spec fn code_length_code_order() -> Seq<int> {
    seq![17, 18, 0, 1, 2, 3, 4, 5, 16, 6, 7, 8, 9, 10, 11, 12, 13, 14, 15]
}

fn code_length_code_order_vec() -> (v: Vec<usize>)
    ensures
        v@.len() == 19,
        forall|i: int| 0 <= i < 19 ==> v@[i] as int == code_length_code_order()[i],
{
    let v: Vec<usize> = vec![17, 18, 0, 1, 2, 3, 4, 5, 16, 6, 7, 8, 9, 10, 11, 12, 13, 14, 15];
    assert(v@ =~= seq![17usize, 18, 0, 1, 2, 3, 4, 5, 16, 6, 7, 8, 9, 10, 11, 12, 13, 14, 15]);
    v
}

/// How often each code length 0..=18 occurs among the first
/// `alphabet_size` entries of `lengths`.
pub open spec fn meta_histogram(lengths: Seq<u8>, alphabet_size: nat) -> Seq<u32> {
    Seq::new(19, |l: int| count_of(lengths.take(alphabet_size as int), l) as u32)
}

/// The meta table's lengths, three bits each, in transmission order.
pub open spec fn meta_lengths_bits(meta: Seq<u8>, k: nat) -> Seq<bool>
    decreases k,
{
    if k == 0 {
        Seq::empty()
    } else {
        meta_lengths_bits(meta, (k - 1) as nat) + bits_of(
            meta[code_length_code_order()[k - 1]] as u32,
            3,
        )
    }
}

/// The first `k` of `lengths`, each written as a symbol of `meta`.
pub open spec fn lengths_as_symbols(meta: HuffmanTable, lengths: Seq<u8>, k: nat) -> Seq<bool>
    decreases k,
{
    if k == 0 {
        Seq::empty()
    } else {
        lengths_as_symbols(meta, lengths, (k - 1) as nat) + meta.symbol_bits(lengths[k - 1] as int)
    }
}

/// The normal code-length code of VP8L: a flag, the count of meta lengths
/// (19, as 19 - 4), the meta lengths, a flag for "no max symbol", then
/// every length written with the meta code.
pub open spec fn code_description(lengths: Seq<u8>, alphabet_size: nat, meta: HuffmanTable) -> Seq<
    bool,
> {
    bits_of(0, 1) + bits_of(15, 4) + meta_lengths_bits(meta.spec_lengths(), 19) + bits_of(0, 1)
        + lengths_as_symbols(meta, lengths, alphabet_size)
}


/// The transmission order names each of the 19 code-length symbols.
proof fn lemma_order_in_range(j: int)
    requires
        0 <= j < 19,
    ensures
        0 <= code_length_code_order()[j] < 19,
{
    if j < 19 {
        assert(code_length_code_order()[0] == 17);
        assert(code_length_code_order()[1] == 18);
        assert(code_length_code_order()[2] == 0);
        assert(code_length_code_order()[3] == 1);
        assert(code_length_code_order()[4] == 2);
        assert(code_length_code_order()[5] == 3);
        assert(code_length_code_order()[6] == 4);
        assert(code_length_code_order()[7] == 5);
        assert(code_length_code_order()[8] == 16);
        assert(code_length_code_order()[9] == 6);
        assert(code_length_code_order()[10] == 7);
        assert(code_length_code_order()[11] == 8);
        assert(code_length_code_order()[12] == 9);
        assert(code_length_code_order()[13] == 10);
        assert(code_length_code_order()[14] == 11);
        assert(code_length_code_order()[15] == 12);
        assert(code_length_code_order()[16] == 13);
        assert(code_length_code_order()[17] == 14);
        assert(code_length_code_order()[18] == 15);
    }
}

/// The bits of the first `k` meta lengths: three per length.
proof fn lemma_meta_lengths_bits_len(m: Seq<u8>, k: nat)
    ensures
        meta_lengths_bits(m, k).len() == 3 * k,
    decreases k,
{
    if k > 0 {
        lemma_meta_lengths_bits_len(m, (k - 1) as nat);
    }
}

/// Reading the meta lengths back: where the first `k` three-bit fields of
/// two meta tables, each followed by more bits, agree, so do the lengths
/// they give and what follows.
proof fn lemma_meta_lengths_parse(m1: Seq<u8>, m2: Seq<u8>, k: nat, x: Seq<bool>, y: Seq<bool>)
    requires
        k <= 19,
        m1.len() == 19,
        m2.len() == 19,
        forall|i: int| 0 <= i < 19 ==> m1[i] <= 7 && m2[i] <= 7,
        meta_lengths_bits(m1, k) + x == meta_lengths_bits(m2, k) + y,
    ensures
        forall|j: int|
            0 <= j < k ==> #[trigger] m1[code_length_code_order()[j]]
                == m2[code_length_code_order()[j]],
        x == y,
    decreases k,
{
    if k > 0 {
        let j = k - 1;
        lemma_order_in_range(j);
        let o = code_length_code_order()[j];
        let b1 = bits_of(m1[o] as u32, 3);
        let b2 = bits_of(m2[o] as u32, 3);
        assert(meta_lengths_bits(m1, k) + x =~= meta_lengths_bits(m1, (k - 1) as nat) + (b1 + x));
        assert(meta_lengths_bits(m2, k) + y =~= meta_lengths_bits(m2, (k - 1) as nat) + (b2 + y));
        lemma_meta_lengths_parse(m1, m2, (k - 1) as nat, b1 + x, b2 + y);
        assert((b1 + x).take(3) =~= b1);
        assert((b2 + y).take(3) =~= b2);
        assert((b1 + x).skip(3) =~= x);
        assert((b2 + y).skip(3) =~= y);
        lemma2_to64();
        crate::webp::bitwriter::lemma_bits_of_injective(m1[o] as u32, m2[o] as u32, 3);
    }
}

/// Meta lengths that agree at every position of the transmission order
/// agree.
proof fn lemma_meta_lengths_equal(m1: Seq<u8>, m2: Seq<u8>)
    requires
        m1.len() == 19,
        m2.len() == 19,
        forall|j: int|
            0 <= j < 19 ==> #[trigger] m1[code_length_code_order()[j]]
                == m2[code_length_code_order()[j]],
    ensures
        m1 == m2,
{
    assert(m1[code_length_code_order()[0]] == m2[code_length_code_order()[0]]);
    assert(code_length_code_order()[0] == 17);
    assert(m1[code_length_code_order()[1]] == m2[code_length_code_order()[1]]);
    assert(code_length_code_order()[1] == 18);
    assert(m1[code_length_code_order()[2]] == m2[code_length_code_order()[2]]);
    assert(code_length_code_order()[2] == 0);
    assert(m1[code_length_code_order()[3]] == m2[code_length_code_order()[3]]);
    assert(code_length_code_order()[3] == 1);
    assert(m1[code_length_code_order()[4]] == m2[code_length_code_order()[4]]);
    assert(code_length_code_order()[4] == 2);
    assert(m1[code_length_code_order()[5]] == m2[code_length_code_order()[5]]);
    assert(code_length_code_order()[5] == 3);
    assert(m1[code_length_code_order()[6]] == m2[code_length_code_order()[6]]);
    assert(code_length_code_order()[6] == 4);
    assert(m1[code_length_code_order()[7]] == m2[code_length_code_order()[7]]);
    assert(code_length_code_order()[7] == 5);
    assert(m1[code_length_code_order()[8]] == m2[code_length_code_order()[8]]);
    assert(code_length_code_order()[8] == 16);
    assert(m1[code_length_code_order()[9]] == m2[code_length_code_order()[9]]);
    assert(code_length_code_order()[9] == 6);
    assert(m1[code_length_code_order()[10]] == m2[code_length_code_order()[10]]);
    assert(code_length_code_order()[10] == 7);
    assert(m1[code_length_code_order()[11]] == m2[code_length_code_order()[11]]);
    assert(code_length_code_order()[11] == 8);
    assert(m1[code_length_code_order()[12]] == m2[code_length_code_order()[12]]);
    assert(code_length_code_order()[12] == 9);
    assert(m1[code_length_code_order()[13]] == m2[code_length_code_order()[13]]);
    assert(code_length_code_order()[13] == 10);
    assert(m1[code_length_code_order()[14]] == m2[code_length_code_order()[14]]);
    assert(code_length_code_order()[14] == 11);
    assert(m1[code_length_code_order()[15]] == m2[code_length_code_order()[15]]);
    assert(code_length_code_order()[15] == 12);
    assert(m1[code_length_code_order()[16]] == m2[code_length_code_order()[16]]);
    assert(code_length_code_order()[16] == 13);
    assert(m1[code_length_code_order()[17]] == m2[code_length_code_order()[17]]);
    assert(code_length_code_order()[17] == 14);
    assert(m1[code_length_code_order()[18]] == m2[code_length_code_order()[18]]);
    assert(code_length_code_order()[18] == 15);
    assert(m1 =~= m2);
}

/// Two tables with the same lengths write the same bits for every symbol.
pub proof fn lemma_same_lengths_same_bits(t1: HuffmanTable, t2: HuffmanTable, s: int)
    requires
        t1.wf(),
        t2.wf(),
        t1.spec_lengths() == t2.spec_lengths(),
        0 <= s < t1.spec_lengths().len(),
    ensures
        t1.symbol_bits(s) == t2.symbol_bits(s),
{
    reveal(HuffmanTable::symbol_bits);
    let ls = t1.spec_lengths();
    if ls[s] > 0 {
        assert(t1.spec_codes()[s] == canonical_code(ls, s));
        assert(t2.spec_codes()[s] == canonical_code(ls, s));
    } else {
        assert(t1.spec_codes()[s] == 0);
        assert(t2.spec_codes()[s] == 0);
    }
}

/// The number of bits `lengths_as_symbols` gives is the same under two
/// tables with the same lengths.
pub proof fn lemma_symbols_same_tables(m1: HuffmanTable, m2: HuffmanTable, l: Seq<u8>, k: nat)
    requires
        m1.wf(),
        m2.wf(),
        m1.spec_lengths() == m2.spec_lengths(),
        k <= l.len(),
        forall|i: int| 0 <= i < k ==> (l[i] as int) < m1.spec_lengths().len(),
    ensures
        lengths_as_symbols(m1, l, k) == lengths_as_symbols(m2, l, k),
    decreases k,
{
    if k > 0 {
        lemma_symbols_same_tables(m1, m2, l, (k - 1) as nat);
        lemma_same_lengths_same_bits(m1, m2, l[k - 1] as int);
    }
}

/// Reading lengths written as symbols back: where the first `k` lengths of
/// two sequences, written with one meta table and each followed by more
/// bits, agree, the lengths and what follows agree.
proof fn lemma_symbols_parse(
    m: HuffmanTable,
    l1: Seq<u8>,
    l2: Seq<u8>,
    k: nat,
    x: Seq<bool>,
    y: Seq<bool>,
)
    requires
        m.wf(),
        k <= l1.len(),
        k <= l2.len(),
        forall|i: int|
            0 <= i < k ==> (l1[i] as int) < m.spec_lengths().len() && m.spec_lengths()[l1[i] as int]
                > 0,
        forall|i: int|
            0 <= i < k ==> (l2[i] as int) < m.spec_lengths().len() && m.spec_lengths()[l2[i] as int]
                > 0,
        lengths_as_symbols(m, l1, k) + x == lengths_as_symbols(m, l2, k) + y,
    ensures
        l1.take(k as int) == l2.take(k as int),
        x == y,
    decreases k,
{
    if k == 0 {
        assert(l1.take(0) =~= l2.take(0));
        assert(lengths_as_symbols(m, l1, k) + x =~= x);
        assert(lengths_as_symbols(m, l2, k) + y =~= y);
    } else {
        let j = k - 1;
        let s1 = m.symbol_bits(l1[j] as int);
        let s2 = m.symbol_bits(l2[j] as int);
        assert(lengths_as_symbols(m, l1, k) + x =~= lengths_as_symbols(m, l1, (k - 1) as nat) + (s1
            + x));
        assert(lengths_as_symbols(m, l2, k) + y =~= lengths_as_symbols(m, l2, (k - 1) as nat) + (s2
            + y));
        lemma_symbols_parse(m, l1, l2, (k - 1) as nat, s1 + x, s2 + y);
        lemma_symbol_bits_parse(m, l1[j] as int, l2[j] as int, x, y);
        assert(l1.take(k as int) =~= l1.take(j).push(l1[j]));
        assert(l2.take(k as int) =~= l2.take(j).push(l2[j]));
    }
}

/// The meta code of a code's description, as built: 19 lengths of at most
/// seven bits, with a code for every length the description writes.
pub open spec fn meta_codes(meta: HuffmanTable, lengths: Seq<u8>, n: nat) -> bool {
    &&& meta.wf()
    &&& n <= lengths.len()
    &&& meta.spec_lengths().len() == 19
    &&& forall|i: int| 0 <= i < 19 ==> meta.spec_lengths()[i] <= MAX_META_CODE_LENGTH
    &&& forall|i: int|
        0 <= i < n ==> (lengths[i] as int) < 19 && meta.spec_lengths()[lengths[i] as int] > 0
}

/// An entry of a sequence is counted.
proof fn lemma_count_of_has(ls: Seq<u8>, i: int)
    requires
        0 <= i < ls.len(),
    ensures
        count_of(ls, ls[i] as int) >= 1,
    decreases ls.len(),
{
    if i < ls.len() - 1 {
        lemma_count_of_has(ls.drop_last(), i);
    }
}

/// A meta code built from the histogram of a table's lengths codes every
/// length the description writes.
pub proof fn lemma_meta_codes(meta: HuffmanTable, lengths: Seq<u8>, n: nat)
    requires
        meta.wf(),
        n <= lengths.len() < u32::MAX,
        forall|i: int| 0 <= i < lengths.len() ==> lengths[i] <= MAX_CODE_LENGTH,
        lengths_for(meta_histogram(lengths, n), MAX_META_CODE_LENGTH as nat, meta.spec_lengths()),
    ensures
        meta_codes(meta, lengths, n),
{
    let h = meta_histogram(lengths, n);
    assert forall|i: int| 0 <= i < n implies (lengths[i] as int) < 19 && meta.spec_lengths()[
        lengths[i] as int] > 0 by {
        let l = lengths[i] as int;
        lemma_count_of_has(lengths.take(n as int), i);
        lemma_count_of_le_len(lengths.take(n as int), l);
        assert(lengths.take(n as int)[i] == lengths[i]);
        assert(0 <= l < 19);
        assert(h[l] == count_of(lengths.take(n as int), l) as u32);
        assert(h[l] > 0);
        lemma_support_bound(h);
        assert(support(h).contains(l));
    }
}

/// Reading a code's description back: where the descriptions of two
/// codes' first `n` lengths, each with a meta code that codes them and each
/// followed by more bits, agree, the meta codes have one set of lengths,
/// the code lengths agree, and what follows agrees.
pub proof fn lemma_description_parse(
    l1: Seq<u8>,
    l2: Seq<u8>,
    n: nat,
    m1: HuffmanTable,
    m2: HuffmanTable,
    x: Seq<bool>,
    y: Seq<bool>,
)
    requires
        meta_codes(m1, l1, n),
        meta_codes(m2, l2, n),
        code_description(l1, n, m1) + x == code_description(l2, n, m2) + y,
    ensures
        m1.spec_lengths() == m2.spec_lengths(),
        l1.take(n as int) == l2.take(n as int),
        x == y,
{
    let head = bits_of(0, 1) + bits_of(15, 4);
    let mb1 = meta_lengths_bits(m1.spec_lengths(), 19);
    let mb2 = meta_lengths_bits(m2.spec_lengths(), 19);
    let flag = bits_of(0, 1);
    let s1 = lengths_as_symbols(m1, l1, n);
    let s2 = lengths_as_symbols(m2, l2, n);
    assert(code_description(l1, n, m1) + x =~= head + (mb1 + (flag + (s1 + x))));
    assert(code_description(l2, n, m2) + y =~= head + (mb2 + (flag + (s2 + y))));
    assert((head + (mb1 + (flag + (s1 + x)))).skip(5) =~= mb1 + (flag + (s1 + x)));
    assert((head + (mb2 + (flag + (s2 + y)))).skip(5) =~= mb2 + (flag + (s2 + y)));
    lemma_meta_lengths_parse(m1.spec_lengths(), m2.spec_lengths(), 19, flag + (s1 + x), flag + (s2
        + y));
    lemma_meta_lengths_equal(m1.spec_lengths(), m2.spec_lengths());
    assert((flag + (s1 + x)).skip(1) =~= s1 + x);
    assert((flag + (s2 + y)).skip(1) =~= s2 + y);
    lemma_symbols_same_tables(m2, m1, l2, n);
    lemma_symbols_parse(m1, l1, l2, n, x, y);
}

/// Transmits `table` (a code-length table over `alphabet_size` symbols) via
/// VP8L's "normal" code-length coding path: a nested Huffman code over the
/// 19-symbol code-length alphabet, describing every symbol's length
/// literally (0..=15). The run-length repeat symbols (16/17/18) are never
/// used: alphabets here are at most 280 symbols, so the fixed overhead is
/// a few hundred bits at most.
pub fn write_huffman_code(w: &mut BitWriter, table: &HuffmanTable, alphabet_size: usize)
    requires
        old(w).wf(),
        table.wf(),
        alphabet_size <= table.spec_lengths().len(),
    ensures
        final(w).wf(),
        exists|meta: HuffmanTable|
            {
                &&& meta.wf()
                &&& lengths_for(
                    meta_histogram(table.spec_lengths(), alphabet_size as nat),
                    MAX_META_CODE_LENGTH as nat,
                    meta.spec_lengths(),
                )
                &&& #[trigger] final(w).written() == old(w).written() + code_description(
                    table.spec_lengths(),
                    alphabet_size as nat,
                    meta,
                )
            },
{
    let ghost ls = table.spec_lengths();
    let mut meta_histogram_v: Vec<u32> = vec![0u32; 19];
    proof {
        assert forall|l: int| 0 <= l < 19 implies meta_histogram_v[l] == 0 by {
            assert(cloned(0u32, meta_histogram_v@[l]));
        }
        assert(ls.take(0) =~= Seq::<u8>::empty());
    }
    let mut symbol: usize = 0;
    while symbol < alphabet_size
        invariant
            table.wf(),
            ls == table.spec_lengths(),
            alphabet_size <= ls.len(),
            symbol <= alphabet_size,
            meta_histogram_v.len() == 19,
            forall|l: int| 0 <= l < 19 ==> #[trigger] meta_histogram_v[l] == count_of(ls.take(symbol as int), l),
            forall|l: int| 0 <= l < 19 ==> #[trigger] meta_histogram_v[l] <= symbol,
        decreases alphabet_size - symbol,
    {
        let l = table.len_of(symbol) as usize;
        proof {
            assert forall|x: int| 0 <= x < 19 implies count_of(ls.take(symbol + 1), x) == count_of(ls.take(symbol as int), x) + if ls[symbol as int] == x { 1nat } else { 0nat } by {
                lemma_count_of_take(ls, symbol as int, symbol as int, x);
            }
        }
        let c = meta_histogram_v[l];
        meta_histogram_v.set(l, c + 1);
        symbol += 1;
    }
    let ghost mh = meta_histogram(ls, alphabet_size as nat);
    proof {
        assert(meta_histogram_v@ =~= mh);
        lemma_support_prefix_finite(mh, 19);
        assert(Set::new(|i: int| 0 <= i < 19 && mh[i] > 0) =~= support(mh));
        lemma2_to64();
    }
    let meta_table = HuffmanTable::from_histogram_limited(&meta_histogram_v, MAX_META_CODE_LENGTH);
    let ghost start = w.written();
    w.write_bits(0, 1);
    w.write_bits(19 - 4, 4);
    let order = code_length_code_order_vec();
    let ghost after_header = w.written();
    let mut k: usize = 0;
    while k < 19
        invariant
            w.wf(),
            meta_table.wf(),
            meta_table.spec_lengths().len() == 19,
            forall|i: int| 0 <= i < 19 ==> meta_table.spec_lengths()[i] <= MAX_META_CODE_LENGTH,
            order@.len() == 19,
            forall|i: int| 0 <= i < 19 ==> order@[i] as int == code_length_code_order()[i],
            k <= 19,
            w.written() == after_header + meta_lengths_bits(meta_table.spec_lengths(), k as nat),
        decreases 19 - k,
    {
        let sym = order[k];
        let l = meta_table.len_of(sym);
        proof {
            lemma2_to64();
        }
        w.write_bits(l as u32, 3);
        proof {
            assert(w.written() =~= after_header + meta_lengths_bits(meta_table.spec_lengths(), (k + 1) as nat));
        }
        k += 1;
    }
    w.write_bits(0, 1);
    let ghost after_meta = w.written();
    let mut s: usize = 0;
    proof {
        assert(after_meta + lengths_as_symbols(meta_table, ls, 0) =~= after_meta);
    }
    while s < alphabet_size
        invariant
            w.wf(),
            table.wf(),
            ls == table.spec_lengths(),
            alphabet_size <= ls.len(),
            meta_table.wf(),
            meta_table.spec_lengths().len() == 19,
            lengths_for(mh, MAX_META_CODE_LENGTH as nat, meta_table.spec_lengths()),
            mh == meta_histogram(ls, alphabet_size as nat),
            s <= alphabet_size,
            w.written() == after_meta + lengths_as_symbols(meta_table, ls, s as nat),
        decreases alphabet_size - s,
    {
        let l = table.len_of(s);
        proof {
            lemma_count_of_take(ls, s as int, s as int, l as int);
            lemma_count_of_take(ls, s + 1, alphabet_size as int, l as int);
            lemma_count_of_le_len(ls.take(alphabet_size as int), l as int);
            assert(mh[l as int] > 0);
            lemma_support_prefix_finite(mh, 19);
            assert(Set::new(|i: int| 0 <= i < 19 && mh[i] > 0) =~= support(mh));
            assert(support(mh).contains(l as int));
        }
        meta_table.write_symbol(w, l as usize);
        proof {
            assert(w.written() =~= after_meta + lengths_as_symbols(meta_table, ls, (s + 1) as nat));
        }
        s += 1;
    }
    proof {
        assert(w.written() =~= start + code_description(ls, alphabet_size as nat, meta_table));
    }
}




/// The support of `s` is finite and no larger than `s`.
pub proof fn lemma_support_bound(s: Seq<u32>)
    ensures
        support(s).finite(),
        support(s).len() <= s.len(),
{
    lemma_support_prefix_finite(s, s.len() as int);
    assert(Set::new(|i: int| 0 <= i < s.len() && s[i] > 0) =~= support(s));
}

} // verus!
