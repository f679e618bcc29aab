//! Node identifiers: the root is 1, and node `n` has the children `2n` and `2n + 1`.

use vstd::prelude::*;

verus! {

/// The identifier of the root.
pub const ROOT: u64 = 1;

/// The largest identifier of a node that can have children.
pub const MAX_PARENT: u64 = 0x7fff_ffff_ffff_ffff;

/// The number of steps from the root to a node.
pub open spec fn level(id: u64) -> nat
    decreases id,
{
    if id <= 1 {
        0
    } else {
        1 + level(id / 2)
    }
}

/// Whether a node lies in the part of the tree below a top node, or is that node.
pub open spec fn within(id: u64, top: u64) -> bool
    decreases id,
{
    id == top || (id > top && within(id / 2, top))
}

/// The identifier of the left child.
pub fn left_child(id: u64) -> (r: u64)
    requires
        id <= MAX_PARENT,
    ensures
        r == 2 * id,
{
    id * 2
}

/// The identifier of the right child.
pub fn right_child(id: u64) -> (r: u64)
    requires
        id <= MAX_PARENT,
    ensures
        r == 2 * id + 1,
{
    id * 2 + 1
}

/// The identifier of the parent.
pub fn parent(id: u64) -> (r: u64)
    ensures
        r == id / 2,
{
    id / 2
}

/// Whether the node is a left child.
pub fn is_left_child(id: u64) -> (r: bool)
    ensures
        r == (id % 2 == 0),
{
    id % 2 == 0
}

/// Whether the node is a right child.
pub fn is_right_child(id: u64) -> (r: bool)
    ensures
        r == (id % 2 == 1 && id != ROOT),
{
    id % 2 == 1 && id != ROOT
}

/// The number of steps from the root to a node.
pub fn depth(id: u64) -> (r: u32)
    requires
        id >= 1,
    ensures
        r == level(id),
        r <= 63,
{
    let mut rest: u64 = id;
    let mut steps: u32 = 0;
    proof {
        law_level_bounds(id);
    }
    while rest > 1
        invariant
            rest >= 1,
            steps + level(rest) == level(id),
            level(id) <= 63,
        decreases rest,
    {
        rest = rest / 2;
        steps = steps + 1;
    }
    steps
}

/// Powers of two.
pub open spec fn pow2(n: nat) -> nat
    decreases n,
{
    if n == 0 {
        1
    } else {
        2 * pow2((n - 1) as nat)
    }
}

/// The nodes at one level have the identifiers from one power of two up to the next,
/// so no node lies deeper than 63 steps.
pub proof fn law_level_bounds(id: u64)
    requires
        id >= 1,
    ensures
        pow2(level(id)) <= id < 2 * pow2(level(id)),
        level(id) <= 63,
        level(id) < 63 ==> id <= MAX_PARENT,
    decreases id,
{
    if id > 1 {
        law_level_bounds(id / 2);
    }
    assert(pow2(63) == 0x8000_0000_0000_0000) by {
        reveal_with_fuel(pow2, 64);
    }
    if level(id) >= 64 {
        lemma_pow2_grows(64, level(id));
        assert(pow2(64) == 2 * pow2(63));
        assert(false);
    }
    if level(id) < 63 {
        lemma_pow2_grows(level(id) + 1, 63);
    }
}

/// Powers of two grow.
proof fn lemma_pow2_grows(a: nat, b: nat)
    requires
        a <= b,
    ensures
        pow2(a) <= pow2(b),
    decreases b - a,
{
    if a < b {
        lemma_pow2_grows(a, (b - 1) as nat);
        assert(pow2((b - 1) as nat) >= 0);
    }
}

/// The parent of a child is the node that it is a child of, each child is one step
/// deeper, the two children differ, and each child is a left or a right one.
pub proof fn law_parent_of_child(id: u64)
    requires
        1 <= id <= MAX_PARENT,
    ensures
        ((2 * id) as u64) / 2 == id,
        ((2 * id + 1) as u64) / 2 == id,
        level((2 * id) as u64) == level(id) + 1,
        level((2 * id + 1) as u64) == level(id) + 1,
        ((2 * id) as u64) % 2 == 0,
        ((2 * id + 1) as u64) % 2 == 1,
        (2 * id + 1) as u64 != ROOT,
{
}

/// Every node lies below the root.
pub proof fn lemma_within_root(id: u64)
    requires
        id >= 1,
    ensures
        within(id, ROOT),
    decreases id,
{
    if id > 1 {
        lemma_within_root(id / 2);
    }
}

/// What lies below a node is no smaller than it.
pub proof fn lemma_within_order(id: u64, top: u64)
    requires
        within(id, top),
    ensures
        id >= top,
{
}

/// What lies below a node that lies below a top node lies below the top node.
pub proof fn lemma_within_trans(a: u64, b: u64, c: u64)
    requires
        within(a, b),
        within(b, c),
    ensures
        within(a, c),
    decreases a,
{
    if a != b {
        lemma_within_trans(a / 2, b, c);
        lemma_within_order(b, c);
    }
}

/// What lies below a node is the node itself, or lies below one of its children and
/// not below the other.
pub proof fn lemma_within_children(id: u64, top: u64)
    requires
        1 <= top <= MAX_PARENT,
    ensures
        within(id, top) <==> id == top || within(id, (2 * top) as u64) || within(
            id,
            (2 * top + 1) as u64,
        ),
        !(within(id, (2 * top) as u64) && within(id, (2 * top + 1) as u64)),
        !within(top, (2 * top) as u64),
        !within(top, (2 * top + 1) as u64),
    decreases id,
{
    let l = (2 * top) as u64;
    let r = (2 * top + 1) as u64;
    if id > top {
        lemma_within_children(id / 2, top);
        if id < l {
            assert(id / 2 < top);
        } else if id == l || id == r {
            assert(id / 2 == top);
            assert(within(top, top));
            if id == l {
                assert(!within(id, r));
            } else {
                assert(!within(id / 2, l));
            }
        } else {
            assert(id / 2 > top);
        }
    }
}

} // verus!
