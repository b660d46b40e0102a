//! Versions of different families do not touch.

use crate::vec::model::{
    avoids, chain, content, depth, edited, is_version, lemma_depth, lemma_flip,
    lemma_grow, lemma_no_cycle, lemma_one_depth, lemma_rebased_cells, lemma_rebased_len, origin,
    rebased, rebased_at, flipped, value, Action, Slot,
};
use vstd::prelude::*;

verus! {

/// The chains of the versions in cells `x` and `h` end in the same root.
pub open spec fn same_family<T>(slots: Seq<Slot<T>>, x: nat, h: nat) -> bool {
    origin(slots, x, depth(slots, x)) == origin(slots, h, depth(slots, h))
}

/// A chain ends in a root.
pub proof fn lemma_origin_is_root<T>(slots: Seq<Slot<T>>, x: nat, d: nat)
    requires
        chain(slots, x, d),
    ensures
        origin(slots, x, d) < slots.len(),
        slots[origin(slots, x, d) as int] is Root,
    decreases d,
{
    match slots[x as int] {
        Slot::Diff(neighbor, _) => {
            assert(d > 0 && chain(slots, neighbor, (d - 1) as nat));
            lemma_origin_is_root(slots, neighbor, (d - 1) as nat);
        },
        _ => {},
    }
}

/// A chain that leads through a cell ends where the chain of that cell ends.
proof fn lemma_on_chain_origin<T>(slots: Seq<Slot<T>>, x: nat, d: nat, y: nat, dy: nat)
    requires
        chain(slots, x, d),
        chain(slots, y, dy),
        !avoids(slots, x, d, y),
    ensures
        origin(slots, x, d) == origin(slots, y, dy),
    decreases d,
{
    if x == y {
        lemma_one_depth(slots, x, d, dy);
    } else {
        match slots[x as int] {
            Slot::Diff(neighbor, _) => {
                assert(d > 0 && chain(slots, neighbor, (d - 1) as nat));
                assert(!avoids(slots, neighbor, (d - 1) as nat, y));
                lemma_on_chain_origin(slots, neighbor, (d - 1) as nat, y, dy);
            },
            _ => {},
        }
    }
}

/// Rebasing leaves the chain of a version of another family as it is.
proof fn lemma_rebase_elsewhere<T>(slots: Seq<Slot<T>>, h: nat, dh: nat, x: nat, dx: nat)
    requires
        chain(slots, h, dh),
        chain(slots, x, dx),
        origin(slots, x, dx) != origin(slots, h, dh),
    ensures
        chain(rebased_at(slots, h, dh), x, dx),
        content(rebased_at(slots, h, dh), x, dx) == content(slots, x, dx),
        origin(rebased_at(slots, h, dh), x, dx) == origin(slots, x, dx),
        avoids(rebased_at(slots, h, dh), x, dx, h),
    decreases dh,
{
    let r = origin(slots, x, dx);
    lemma_origin_is_root(slots, x, dx);
    match slots[h as int] {
        Slot::Diff(n, action) => {
            let dn = (dh - 1) as nat;
            let before = rebased_at(slots, n, dn);
            assert(chain(slots, n, dn));
            assert(origin(slots, h, dh) == origin(slots, n, dn));
            lemma_rebase_elsewhere(slots, n, dn, x, dx);
            lemma_rebased_len(slots, n, dn);
            lemma_no_cycle(slots, h, dh, n, dn);
            lemma_rebased_cells(slots, n, dn, h);
            lemma_rebased_cells(slots, n, dn, n);
            assert(n < before.len() && h < before.len());
            assert(before[n as int] is Root);
            assert(before[h as int] == slots[h as int]);
            assert(rebased_at(slots, h, dh) == flipped(before, n, h));
            lemma_origin_is_root(slots, n, dn);
            assert(r != n) by {
                if slots[n as int] is Root {
                    assert(origin(slots, n, dn) == n);
                }
            }
            assert(r != h);
            assert(chain(before, h, 1)) by {
                assert(chain(before, n, 0));
                assert(content(before, n, 0) == content(slots, n, dn));
            }
            if !avoids(before, x, dx, h) {
                lemma_on_chain_origin(before, x, dx, h, 1);
                assert(origin(before, h, 1) == origin(before, n, 0));
            }
            let after = flipped(before, n, h);
            let d2 = lemma_flip(before, n, h, x, dx);
            assert(chain(after, h, 0));
            if !avoids(after, x, dx, h) {
                lemma_on_chain_origin(after, x, dx, h, 0);
            }
        },
        _ => {
            assert(origin(slots, h, dh) == h);
            if !avoids(slots, x, dx, h) {
                lemma_on_chain_origin(slots, x, dx, h, dh);
            }
        },
    }
}

/// Reading a version leaves the versions of other families at the depth
/// they had.
pub proof fn law_rebase_elsewhere<T>(slots: Seq<Slot<T>>, h: nat, x: nat)
    requires
        is_version(slots, h),
        is_version(slots, x),
        !same_family(slots, x, h),
    ensures
        depth(rebased(slots, h), x) == depth(slots, x),
        value(rebased(slots, h), x) == value(slots, x),
{
    lemma_rebase_elsewhere(slots, h, depth(slots, h), x, depth(slots, x));
    lemma_depth(rebased(slots, h), x, depth(slots, x));
}

/// An edit in place leaves the versions of other families as they are.
pub proof fn law_edit_elsewhere<T>(slots: Seq<Slot<T>>, h: nat, action: Action<T>, x: nat)
    requires
        is_version(slots, h),
        is_version(slots, x),
        action.applies(value(slots, h)),
        action !is Pop,
        !same_family(slots, x, h),
    ensures
        depth(edited(slots, h, action), x) == depth(slots, x),
        value(edited(slots, h, action), x) == value(slots, x),
{
    let dh = depth(slots, h);
    let dx = depth(slots, x);
    let middle = rebased(slots, h);
    lemma_rebase_elsewhere(slots, h, dh, x, dx);
    lemma_rebased_len(slots, h, dh);
    lemma_rebased_cells(slots, h, dh, h);
    lemma_grow(middle, h, action.effect(value(slots, h)), x, dx);
    lemma_depth(edited(slots, h, action), x, dx);
}

} // verus!
