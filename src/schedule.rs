//! The leaf scheduler: the postorder visit of the internal nodes of a perfect
//! binary tree, held as an implicit 1-indexed heap, and the visit positions at
//! which a node hashes a pair of leaves.
use vstd::arithmetic::power2::{
    lemma2_to64, lemma_pow2_pos, lemma_pow2_strictly_increases, lemma_pow2_unfold, pow2,
};
use vstd::prelude::*;

verus! {

/// Postorder of the heap rooted at `n` (left subtree, right subtree, node), each
/// node `m` written as `nodes[m - 1]`; nodes past `nodes.len()` do not exist.
pub open spec fn postorder(n: int, nodes: Seq<usize>) -> Seq<usize>
    decreases (if n > nodes.len() { 0 } else { nodes.len() + 1 - n }),
{
    if n < 1 || n > nodes.len() {
        seq![]
    } else {
        postorder(2 * n, nodes) + postorder(2 * n + 1, nodes) + seq![nodes[n - 1]]
    }
}

/// The heap `1, 2, ..., k`.
pub open spec fn heap_nodes(k: int) -> Seq<usize> {
    Seq::new(k as nat, |i: int| (i + 1) as usize)
}

/// For each visit position of the postorder of a heap of `k` nodes, whether the
/// node visited there lies in the upper half `[(k + 1) / 2, k]`: a node whose
/// children are leaves, so that its hash cycle loads a fresh pair of leaves.
pub open spec fn load_kinds(k: int) -> Seq<bool> {
    let post = postorder(1, heap_nodes(k));
    Seq::new(post.len(), |i: int| post[i] >= (k + 1) / 2)
}

/// The positions of `ks` that hold `true`, ascending.
pub open spec fn true_positions(ks: Seq<bool>) -> Seq<usize>
    decreases ks.len(),
{
    if ks.len() == 0 {
        seq![]
    } else {
        let rest = true_positions(ks.drop_last());
        if ks.last() {
            rest.push((ks.len() - 1) as usize)
        } else {
            rest
        }
    }
}

/// The visit positions of the upper-half nodes in the postorder of a heap of
/// `k` nodes.
pub open spec fn leaf_steps(k: int) -> Seq<usize> {
    true_positions(load_kinds(k))
}

/// The number of positions below `c` that hold `true`.
pub open spec fn loads_before(ks: Seq<bool>, c: int) -> int
    decreases c,
{
    if c <= 0 {
        0
    } else {
        loads_before(ks, c - 1) + if ks[c - 1] { 1int } else { 0int }
    }
}

/// The number of digests held in storage while hash cycle `c` runs: each later
/// cycle that loads leaves first pushes the previous result, each other cycle
/// pops one entry to pair with it.
pub open spec fn pending(ks: Seq<bool>, c: int) -> int
    decreases c,
{
    if c <= 0 {
        0
    } else {
        pending(ks, c - 1) + if ks[c] { 1int } else { -1int }
    }
}

/// The load pattern of a perfect tree of `h` levels of internal nodes, by its
/// recursive shape: left subtree, right subtree, root.
pub open spec fn tree_kinds(h: nat) -> Seq<bool>
    decreases h,
{
    if h <= 1 {
        seq![true]
    } else {
        tree_kinds((h - 1) as nat) + tree_kinds((h - 1) as nat) + seq![false]
    }
}

/// Postorder of the heap rooted at `n` over `nodes`.
pub fn postorder_traversal(n: usize, nodes: &[usize]) -> (r: Vec<usize>)
    requires
        n >= 1,
        nodes@.len() < usize::MAX / 4,
    ensures
        r@ == postorder(n as int, nodes@),
    decreases (if n > nodes@.len() { 0 } else { nodes@.len() + 1 - n }),
{
    if n > nodes.len() {
        return vec![];
    }
    let mut left = postorder_traversal(2 * n, nodes);
    let mut right = postorder_traversal(2 * n + 1, nodes);
    left.append(&mut right);
    left.push(nodes[n - 1]);
    left
}

/// The visit positions at which a node of the upper half of a heap of
/// `num_nodes` nodes is visited in postorder.
pub fn leaf_steps_in_postorder(num_nodes: usize) -> (r: Vec<usize>)
    requires
        num_nodes < usize::MAX / 4,
    ensures
        r@ == leaf_steps(num_nodes as int),
{
    let mut nodes: Vec<usize> = Vec::new();
    let mut m: usize = 0;
    while m < num_nodes
        invariant
            m <= num_nodes,
            nodes@ == heap_nodes(m as int),
        decreases num_nodes - m,
    {
        nodes.push(m + 1);
        m = m + 1;
        assert(nodes@ =~= heap_nodes(m as int));
    }
    let post = postorder_traversal(1, nodes.as_slice());
    let leaf_start: usize = (num_nodes + 1) / 2;
    let mut r: Vec<usize> = Vec::new();
    let mut i: usize = 0;
    while i < post.len()
        invariant
            i <= post@.len(),
            post@ == postorder(1, heap_nodes(num_nodes as int)),
            leaf_start == (num_nodes + 1) / 2,
            r@ == true_positions(Seq::new(i as nat, |j: int| post@[j] >= leaf_start)),
        decreases post@.len() - i,
    {
        proof {
            assert(Seq::new((i + 1) as nat, |j: int| post@[j] >= leaf_start).drop_last()
                =~= Seq::new(i as nat, |j: int| post@[j] >= leaf_start));
        }
        if post[i] >= leaf_start {
            r.push(i);
        }
        i = i + 1;
    }
    assert(Seq::new(post@.len(), |j: int| post@[j] >= leaf_start)
        =~= load_kinds(num_nodes as int));
    r
}


// Counting along a load pattern
// ---------------------------------------------------------------------------

/// Counting over a prefix of a concatenation counts over its first part.
pub proof fn lemma_loads_prefix(a: Seq<bool>, b: Seq<bool>, c: int)
    requires
        0 <= c <= a.len(),
    ensures
        loads_before(a + b, c) == loads_before(a, c),
    decreases c,
{
    if c > 0 {
        lemma_loads_prefix(a, b, c - 1);
    }
}

proof fn lemma_loads_suffix(a: Seq<bool>, b: Seq<bool>, j: int)
    requires
        0 <= j <= b.len(),
    ensures
        loads_before(a + b, a.len() + j) == loads_before(a, a.len() as int) + loads_before(b, j),
    decreases j,
{
    if j == 0 {
        lemma_loads_prefix(a, b, a.len() as int);
    } else {
        lemma_loads_suffix(a, b, j - 1);
    }
}

/// Counting `true`s up to a later position gives no fewer, and at most one
/// more per position.
pub proof fn lemma_loads_monotone(ks: Seq<bool>, c: int, d: int)
    requires
        0 <= c <= d,
    ensures
        loads_before(ks, c) <= loads_before(ks, d),
        loads_before(ks, d) - loads_before(ks, c) <= d - c,
    decreases d - c,
{
    if c < d {
        lemma_loads_monotone(ks, c, d - 1);
    }
}

proof fn lemma_pending_prefix(a: Seq<bool>, b: Seq<bool>, c: int)
    requires
        0 <= c < a.len(),
    ensures
        pending(a + b, c) == pending(a, c),
    decreases c,
{
    if c > 0 {
        lemma_pending_prefix(a, b, c - 1);
    }
}

proof fn lemma_pending_suffix(a: Seq<bool>, b: Seq<bool>, j: int)
    requires
        0 <= j < b.len(),
    ensures
        pending(a + b, a.len() + j) == pending(a + b, a.len() as int) + pending(b, j),
    decreases j,
{
    if j > 0 {
        lemma_pending_suffix(a, b, j - 1);
    }
}

proof fn lemma_loads_drop_last(ks: Seq<bool>, c: int)
    requires
        ks.len() > 0,
        0 <= c < ks.len(),
    ensures
        loads_before(ks.drop_last(), c) == loads_before(ks, c),
    decreases c,
{
    if c > 0 {
        lemma_loads_drop_last(ks, c - 1);
    }
}

/// The `p`-th entry of `true_positions(ks)` is the position of the `p`-th
/// `true` of `ks`; there are as many entries as `true`s.
pub proof fn lemma_true_positions(ks: Seq<bool>)
    requires
        ks.len() <= usize::MAX,
    ensures
        true_positions(ks).len() == loads_before(ks, ks.len() as int),
        forall|p: int|
            0 <= p < true_positions(ks).len() ==> #[trigger] true_positions(ks)[p] < ks.len()
                && ks[true_positions(ks)[p] as int]
                && loads_before(ks, true_positions(ks)[p] as int) == p,
    decreases ks.len(),
{
    if ks.len() > 0 {
        let d = ks.drop_last();
        lemma_true_positions(d);
        assert forall|c: int| 0 <= c < d.len() implies loads_before(d, c) == loads_before(ks, c) by {
            lemma_loads_drop_last(ks, c);
        }
        lemma_loads_drop_last(ks, ks.len() - 1);
        let ps = true_positions(ks);
        assert forall|p: int| 0 <= p < ps.len() implies #[trigger] ps[p] < ks.len()
            && ks[ps[p] as int] && loads_before(ks, ps[p] as int) == p by {
            let rest = true_positions(d);
            if p < rest.len() {
                assert(ps[p] == rest[p]);
                let c = rest[p] as int;
                assert(0 <= c < d.len() && d[c]);
                assert(d[c] == ks[c]);
            } else {
                assert(ks.last());
                assert(ps[p] == (ks.len() - 1) as usize);
            }
        }
    }
}

/// A position holds `true` exactly when it is listed in `true_positions`, and
/// then it is listed at the index that counts the `true`s before it.
pub proof fn lemma_true_positions_member(ks: Seq<bool>, c: int)
    requires
        0 <= c < ks.len() <= usize::MAX,
    ensures
        ks[c] ==> loads_before(ks, c) < true_positions(ks).len()
            && true_positions(ks)[loads_before(ks, c)] == c,
        ks[c] <==> true_positions(ks).contains(c as usize),
{
    lemma_true_positions(ks);
    let ps = true_positions(ks);
    if ks[c] {
        let p = loads_before(ks, c);
        lemma_loads_monotone(ks, c + 1, ks.len() as int);
        lemma_loads_monotone(ks, 0, c);
        assert(loads_before(ks, c + 1) == p + 1);
        assert(p < ps.len());
        let c2 = ps[p] as int;
        assert(ks[c2] && loads_before(ks, c2) == p);
        assert(loads_before(ks, c2 + 1) == p + 1);
        if c2 < c {
            lemma_loads_monotone(ks, c2 + 1, c);
        } else if c2 > c {
            lemma_loads_monotone(ks, c + 1, c2);
        }
        assert(ps[p] == c as usize);
    }
    if ps.contains(c as usize) {
        let p = choose|p: int| 0 <= p < ps.len() && ps[p] == c as usize;
        assert(ps[p] == c as usize);
    }
}

// The shape of a perfect tree
// ---------------------------------------------------------------------------

/// The load pattern of a perfect tree of `h` levels: `2^h - 1` hash cycles, the
/// first of which loads leaves, `2^(h-1)` of which load leaves, and at most
/// `h - 1` digests wait in storage at any time, none after the last cycle.
pub proof fn lemma_tree_kinds(h: nat)
    requires
        h >= 1,
    ensures
        tree_kinds(h).len() == pow2(h) - 1,
        tree_kinds(h)[0],
        loads_before(tree_kinds(h), tree_kinds(h).len() as int) == pow2((h - 1) as nat),
        pending(tree_kinds(h), tree_kinds(h).len() - 1) == 0,
        forall|c: int|
            0 <= c < tree_kinds(h).len() ==> 0 <= #[trigger] pending(tree_kinds(h), c) <= h - 1,
    decreases h,
{
    if h == 1 {
        lemma2_to64();
        reveal_with_fuel(loads_before, 2);
    } else {
        let hh = (h - 1) as nat;
        let a = tree_kinds(hh);
        let s = tree_kinds(h);
        lemma_tree_kinds(hh);
        lemma_pow2_unfold(h);
        if hh >= 1 {
            lemma_pow2_unfold(hh);
        }
        let l = a.len() as int;
        assert(s == (a + a) + seq![false]);
        assert((a + a)[0] == a[0]);
        // counts of loads
        lemma_loads_suffix(a, a, l);
        lemma_loads_suffix(a + a, seq![false], 1);
        assert(loads_before(seq![false], 1) == 0) by {
            reveal_with_fuel(loads_before, 2);
        }
        // pending counts
        assert forall|c: int| 0 <= c < s.len() implies 0 <= #[trigger] pending(s, c) <= h - 1
            && (c == s.len() - 1 ==> pending(s, c) == 0) by {
            if c < l {
                lemma_pending_prefix(a + a, seq![false], c);
                lemma_pending_prefix(a, a, c);
            } else if c < 2 * l {
                lemma_pending_prefix(a + a, seq![false], c);
                lemma_pending_prefix(a + a, seq![false], l);
                lemma_pending_prefix(a + a, seq![false], l - 1);
                lemma_pending_prefix(a, a, l - 1);
                assert(pending(a + a, l) == pending(a + a, l - 1) + 1);
                lemma_pending_suffix(a, a, c - l);
            } else {
                lemma_pending_prefix(a + a, seq![false], 2 * l - 1);
                lemma_pending_prefix(a + a, seq![false], l);
                lemma_pending_prefix(a + a, seq![false], l - 1);
                lemma_pending_prefix(a, a, l - 1);
                assert(pending(a + a, l) == pending(a + a, l - 1) + 1);
                lemma_pending_suffix(a, a, l - 1);
                assert(pending(s, c) == pending(s, c - 1) - 1);
            }
        }
    }
}

/// The subtree rooted at node `n` of depth `d` in a heap of `2^h - 1` nodes is
/// perfect, with `h - d` levels.
proof fn lemma_subtree_kinds(h: nat, d: nat, n: int)
    requires
        d < h,
        pow2(h) <= usize::MAX,
        pow2(d) <= n < pow2(d + 1),
    ensures
        ({
            let post = postorder(n, heap_nodes(pow2(h) - 1));
            Seq::new(post.len(), |i: int| post[i] >= pow2((h - 1) as nat))
        }) == tree_kinds((h - d) as nat),
    decreases h - d,
{
    let k = pow2(h) - 1;
    let nodes = heap_nodes(k);
    let lo = pow2((h - 1) as nat);
    lemma_pow2_unfold(h);
    lemma_pow2_unfold(d + 1);
    lemma_pow2_pos(d);
    if d + 1 < h {
        lemma_pow2_strictly_increases(d + 1, h);
        lemma_pow2_unfold(d + 2);
        if d + 1 < h - 1 {
            lemma_pow2_strictly_increases(d + 1, (h - 1) as nat);
        }
        assert(pow2(d + 1) <= 2 * n < pow2(d + 2));
        lemma_subtree_kinds(h, d + 1, 2 * n);
        lemma_subtree_kinds(h, d + 1, 2 * n + 1);
        let pl = postorder(2 * n, nodes);
        let pr = postorder(2 * n + 1, nodes);
        let post = postorder(n, nodes);
        assert(post == pl + pr + seq![nodes[n - 1]]);
        assert(nodes[n - 1] == n);
        assert(n < lo);
        assert(Seq::new(post.len(), |i: int| post[i] >= lo) =~= Seq::new(pl.len(), |i: int| pl[i] >= lo)
            + Seq::new(pr.len(), |i: int| pr[i] >= lo) + seq![false]);
    } else {
        assert(d + 1 == h);
        let post = postorder(n, nodes);
        assert(postorder(2 * n, nodes) == Seq::<usize>::empty());
        assert(postorder(2 * n + 1, nodes) == Seq::<usize>::empty());
        assert(post =~= seq![n as usize]);
        assert(Seq::new(post.len(), |i: int| post[i] >= lo) =~= seq![true]);
    }
}

/// For `2^h` leaves, the heap of internal nodes has the load pattern of a
/// perfect tree of `h` levels.
pub proof fn lemma_load_kinds_perfect(h: nat)
    requires
        h >= 1,
        pow2(h) <= usize::MAX,
    ensures
        load_kinds(pow2(h) - 1) == tree_kinds(h),
{
    lemma_pow2_unfold(h);
    lemma2_to64();
    lemma_subtree_kinds(h, 0, 1);
    assert((pow2(h) - 1 + 1) / 2 == pow2((h - 1) as nat));
}

} // verus!
