//! Heights and breadth-first positions.
//!
//! The nodes of a tree are numbered from the root, level by level and left
//! to right, starting at 0. The level at depth `d` then starts at position
//! `2^d - 1`, and the parent of the node at position `p` sits at
//! `(p - 1) / 2`.
use vstd::arithmetic::logarithm::{lemma_log0, lemma_log_nonnegative, lemma_log_s, log};
use vstd::arithmetic::power2::{
    lemma2_to64, lemma_pow2_adds, lemma_pow2_pos, lemma_pow2_strictly_increases,
    lemma_pow2_unfold, pow2,
};
use vstd::prelude::*;

verus! {

/// The height of a tree over `leaf_count` leaves: the integer part of the
/// base-2 logarithm of `2 * leaf_count - 1`. A single leaf has height 0.
pub open spec fn tree_height(leaf_count: nat) -> nat {
    log(2, 2 * leaf_count - 1) as nat
}

/// The number of positions that come before depth `depth`: `2^depth - 1`.
pub open spec fn nodes_before(depth: nat) -> nat {
    (pow2(depth) - 1) as nat
}

/// The length of the layer above a layer of `len` nodes.
pub open spec fn halved(len: nat) -> nat {
    (len + 1) / 2
}

/// The integer logarithm `l` of `x` is the one exponent with
/// `2^l <= x < 2^(l + 1)`.
pub proof fn lemma_log2_bounds(x: int)
    requires
        x >= 1,
    ensures
        log(2, x) >= 0,
        pow2(log(2, x) as nat) <= x < pow2((log(2, x) + 1) as nat),
    decreases x,
{
    lemma_log_nonnegative(2, x);
    if x < 2 {
        lemma_log0(2, x);
        lemma2_to64();
    } else {
        lemma_log_s(2, x);
        lemma_log2_bounds(x / 2);
        let l = log(2, x / 2);
        lemma_pow2_unfold((l + 1) as nat);
        lemma_pow2_unfold((l + 2) as nat);
    }
}

/// An exponent `h` with `2^h <= x < 2^(h + 1)` is the integer logarithm
/// of `x`.
pub proof fn lemma_log2_unique(x: int, h: nat)
    requires
        pow2(h) <= x < pow2(h + 1),
    ensures
        log(2, x) == h,
    decreases h,
{
    lemma_pow2_pos(h);
    if h == 0 {
        lemma2_to64();
        lemma_log0(2, x);
    } else {
        lemma_pow2_unfold(h);
        lemma_pow2_unfold(h + 1);
        lemma_log_s(2, x);
        lemma_log2_unique(x / 2, (h - 1) as nat);
    }
}

/// The height `h` of a tree over `n >= 1` leaves satisfies
/// `2^h - 1 < 2n - 1 <= 2^(h + 1) - 1`.
pub proof fn lemma_tree_height_bounds(leaf_count: nat)
    requires
        leaf_count >= 1,
    ensures
        pow2(tree_height(leaf_count)) - 1 < 2 * leaf_count - 1 <= pow2(
            tree_height(leaf_count) + 1,
        ) - 1,
{
    lemma_log2_bounds(2 * leaf_count - 1);
}

/// A tree has height 0 exactly when it has a single leaf.
pub proof fn lemma_tree_height_zero(leaf_count: nat)
    requires
        leaf_count >= 1,
    ensures
        tree_height(leaf_count) == 0 <==> leaf_count == 1,
{
    lemma_log2_bounds(2 * leaf_count - 1);
    lemma2_to64();
    if leaf_count == 1 {
        lemma_log0(2, 1);
    }
}

/// Pairing up the nodes of a layer of two or more nodes leaves a tree that
/// is one level lower.
pub proof fn lemma_tree_height_step(leaf_count: nat)
    requires
        leaf_count >= 2,
    ensures
        tree_height(leaf_count) == tree_height(halved(leaf_count)) + 1,
{
    let upper = halved(leaf_count);
    let h = tree_height(upper);
    lemma_log2_bounds(2 * upper - 1);
    lemma_pow2_unfold(h + 1);
    lemma_pow2_unfold(h + 2);
    // 2^h <= 2 * upper - 1 < 2^(h + 1), and both bounds are even unless h == 0.
    if h == 0 {
        lemma2_to64();
        assert(upper == 1);
        assert(leaf_count == 2);
        lemma_log2_unique(3, 1);
    } else {
        lemma_pow2_unfold(h);
        assert(pow2(h) % 2 == 0);
        assert(pow2(h) + 1 <= 2 * upper - 1);
        assert(2 * upper - 1 <= pow2(h + 1) - 1);
        lemma_log2_unique(2 * leaf_count - 1, h + 1);
    }
}

/// On a machine whose `usize` has at most 64 bits, no tree is higher
/// than 64.
pub proof fn lemma_tree_height_fits(leaf_count: nat)
    requires
        1 <= leaf_count <= usize::MAX,
    ensures
        tree_height(leaf_count) <= 64,
{
    let h = tree_height(leaf_count);
    lemma_log2_bounds(2 * leaf_count - 1);
    lemma2_to64();
    lemma_pow2_unfold(65);
    if h > 65 {
        lemma_pow2_strictly_increases(65, h);
    }
}

/// The level at depth `depth + 1` starts right after the `2^depth` nodes
/// of the level at depth `depth`, and the parent of its node number `i`
/// is node number `i / 2` of that level.
pub proof fn lemma_parent_position(depth: nat, i: nat)
    ensures
        nodes_before(depth + 1) == 2 * nodes_before(depth) + 1,
        (nodes_before(depth + 1) + i - 1) / 2 == nodes_before(depth) + i / 2,
{
    lemma_pow2_pos(depth);
    lemma_pow2_unfold(depth + 1);
}

/// Every power of two up to `2^127` fits in 128 bits.
pub proof fn lemma_pow2_fits(e: nat)
    requires
        e < 128,
    ensures
        0 < pow2(e) <= 0x8000_0000_0000_0000_0000_0000_0000_0000,
{
    lemma_pow2_pos(e);
    lemma2_to64();
    lemma_pow2_adds(64, 32);
    lemma_pow2_adds(96, 31);
    assert(pow2(127) == 0x8000_0000_0000_0000_0000_0000_0000_0000) by {
        assert(0x1_0000_0000_0000_0000 * 0x1_0000_0000 == 0x1_0000_0000_0000_0000_0000_0000int)
            by (nonlinear_arith);
        assert(0x1_0000_0000_0000_0000_0000_0000 * 0x8000_0000
            == 0x8000_0000_0000_0000_0000_0000_0000_0000int) by (nonlinear_arith);
    }
    if e < 127 {
        lemma_pow2_strictly_increases(e, 127);
    }
}

} // verus!
