//! The cells of a family of versions as a plain sequence of slots, and what
//! rebasing does to it.

use vstd::prelude::*;

verus! {

/// An edit of an array.
pub enum Action<T> {
    /// Remove the last element.
    Pop,
    /// Append an element.
    Push(T),
    /// Replace the element at an index.
    Replace(usize, T),
}

impl<T> Action<T> {
    /// Whether the edit can be made to `data`.
    pub open spec fn applies(self, data: Seq<T>) -> bool {
        match self {
            Action::Pop => data.len() > 0,
            Action::Push(_) => true,
            Action::Replace(index, _) => index < data.len(),
        }
    }

    /// The array that the edit makes of `data`.
    pub open spec fn effect(self, data: Seq<T>) -> Seq<T> {
        match self {
            Action::Pop => data.drop_last(),
            Action::Push(value) => data.push(value),
            Action::Replace(index, value) => data.update(index as int, value),
        }
    }

    /// The edit that undoes this one, made to `data`.
    pub open spec fn inverse(self, data: Seq<T>) -> Action<T> {
        match self {
            Action::Pop => Action::Push(data.last()),
            Action::Push(_) => Action::Pop,
            Action::Replace(index, _) => Action::Replace(index, data[index as int]),
        }
    }

    /// The inverse of an edit can be made to what the edit produced, and gives
    /// back the array that the edit was made to.
    pub proof fn law_inverse(self, data: Seq<T>)
        requires
            self.applies(data),
        ensures
            self.inverse(data).applies(self.effect(data)),
            self.inverse(data).effect(self.effect(data)) == data,
    {
        assert(self.inverse(data).effect(self.effect(data)) =~= data);
    }
}

/// What one cell holds.
pub enum Slot<T> {
    /// Nothing: the cell's payload is out, in the hands of an operation.
    Empty,
    /// The array itself.
    Root(Seq<T>),
    /// The cell's array is that of the cell `neighbor` with `action` made to it.
    Diff(nat, Action<T>),
}

/// From cell `c`, exactly `d` steps from neighbor to neighbor lead to a root,
/// and each edit on the way can be made to the array it meets.
pub open spec fn chain<T>(slots: Seq<Slot<T>>, c: nat, d: nat) -> bool
    decreases d,
{
    c < slots.len() && match slots[c as int] {
        Slot::Empty => false,
        Slot::Root(_) => d == 0,
        Slot::Diff(neighbor, action) => d > 0 && chain(slots, neighbor, (d - 1) as nat)
            && action.applies(content(slots, neighbor, (d - 1) as nat)),
    }
}

/// The array of cell `c`, whose chain has `d` steps.
pub open spec fn content<T>(slots: Seq<Slot<T>>, c: nat, d: nat) -> Seq<T>
    decreases d,
{
    match slots[c as int] {
        Slot::Empty => Seq::empty(),
        Slot::Root(data) => data,
        Slot::Diff(neighbor, action) => if d > 0 {
            action.effect(content(slots, neighbor, (d - 1) as nat))
        } else {
            Seq::empty()
        },
    }
}

/// The root in which the chain of cell `c`, of `d` steps, ends.
pub open spec fn origin<T>(slots: Seq<Slot<T>>, c: nat, d: nat) -> nat
    decreases d,
{
    match slots[c as int] {
        Slot::Diff(neighbor, _) => if d > 0 {
            origin(slots, neighbor, (d - 1) as nat)
        } else {
            c
        },
        _ => c,
    }
}

/// Cell `x` is none of the cells on the chain of cell `c`, of `d` steps.
pub open spec fn avoids<T>(slots: Seq<Slot<T>>, c: nat, d: nat, x: nat) -> bool
    decreases d,
{
    c != x && match slots[c as int] {
        Slot::Diff(neighbor, _) => d > 0 ==> avoids(slots, neighbor, (d - 1) as nat, x),
        _ => true,
    }
}

/// The slots after cell `c`, whose chain has `d` steps, was made the root:
/// every cell on its chain now holds the inverse of the edit that led away
/// from it, and points back towards `c`.
pub open spec fn rebased_at<T>(slots: Seq<Slot<T>>, c: nat, d: nat) -> Seq<Slot<T>>
    decreases d,
{
    match slots[c as int] {
        Slot::Diff(neighbor, action) => if d > 0 {
            let base = content(slots, neighbor, (d - 1) as nat);
            rebased_at(slots, neighbor, (d - 1) as nat).update(
                neighbor as int,
                Slot::Diff(c, action.inverse(base)),
            ).update(c as int, Slot::Root(action.effect(base)))
        } else {
            slots
        },
        _ => slots,
    }
}

/// Cell `c` is a version: its chain leads to a root.
pub open spec fn is_version<T>(slots: Seq<Slot<T>>, c: nat) -> bool {
    exists|d: nat| chain(slots, c, d)
}

/// The number of steps from cell `c` to its root.
pub open spec fn depth<T>(slots: Seq<Slot<T>>, c: nat) -> nat {
    choose|d: nat| chain(slots, c, d)
}

/// The array that the version in cell `c` stands for.
pub open spec fn value<T>(slots: Seq<Slot<T>>, c: nat) -> Seq<T> {
    content(slots, c, depth(slots, c))
}

/// The slots after the version in cell `c` was made the root.
pub open spec fn rebased<T>(slots: Seq<Slot<T>>, c: nat) -> Seq<Slot<T>> {
    rebased_at(slots, c, depth(slots, c))
}

/// Cell `c` is empty or a version.
pub open spec fn sound<T>(slots: Seq<Slot<T>>, c: nat) -> bool {
    slots[c as int] is Empty || is_version(slots, c)
}

/// Every cell is empty or a version.
pub open spec fn consistent<T>(slots: Seq<Slot<T>>) -> bool {
    forall|c: nat| c < slots.len() ==> #[trigger] sound(slots, c)
}

/// Every version of `before` is a version of `after`.
pub open spec fn stays<T>(before: Seq<Slot<T>>, after: Seq<Slot<T>>) -> bool {
    &&& before.len() <= after.len()
    &&& forall|x: nat| x < before.len() && is_version(before, x) ==> #[trigger] is_version(after, x)
}

/// Every version of `before` is a version of `after` and stands for the same
/// array there.
pub open spec fn keeps<T>(before: Seq<Slot<T>>, after: Seq<Slot<T>>) -> bool {
    &&& stays(before, after)
    &&& forall|x: nat|
        x < before.len() && is_version(before, x) ==> #[trigger] value(after, x) == value(before, x)
}

/// Every version of `before` but the one in cell `c` is a version of `after`
/// and stands for the same array there.
pub open spec fn keeps_but<T>(before: Seq<Slot<T>>, after: Seq<Slot<T>>, c: nat) -> bool {
    &&& stays(before, after)
    &&& forall|x: nat|
        x < before.len() && x != c && is_version(before, x) ==> #[trigger] value(after, x) == value(
            before,
            x,
        )
}

/// A chain has one length.
pub proof fn lemma_one_depth<T>(slots: Seq<Slot<T>>, c: nat, d1: nat, d2: nat)
    requires
        chain(slots, c, d1),
        chain(slots, c, d2),
    ensures
        d1 == d2,
    decreases d1,
{
    match slots[c as int] {
        Slot::Diff(neighbor, _) => {
            lemma_one_depth(slots, neighbor, (d1 - 1) as nat, (d2 - 1) as nat);
        },
        _ => {},
    }
}

/// The depth of a version is the length of its chain.
pub proof fn lemma_depth<T>(slots: Seq<Slot<T>>, c: nat, d: nat)
    requires
        chain(slots, c, d),
    ensures
        depth(slots, c) == d,
        is_version(slots, c),
{
    lemma_one_depth(slots, c, d, depth(slots, c));
}

/// A chain does not come back to a cell that leads into it.
pub proof fn lemma_no_cycle<T>(slots: Seq<Slot<T>>, c: nat, d: nat, m: nat, k: nat)
    requires
        chain(slots, c, d),
        chain(slots, m, k),
        k < d,
    ensures
        avoids(slots, m, k, c),
    decreases k,
{
    if m == c {
        lemma_one_depth(slots, c, d, k);
    }
    match slots[m as int] {
        Slot::Diff(neighbor, _) => {
            lemma_no_cycle(slots, c, d, neighbor, (k - 1) as nat);
        },
        _ => {},
    }
}

/// No chain leads through an empty cell.
pub proof fn lemma_empty_avoided<T>(slots: Seq<Slot<T>>, c: nat, d: nat, x: nat)
    requires
        chain(slots, c, d),
        x < slots.len(),
        slots[x as int] is Empty,
    ensures
        avoids(slots, c, d, x),
    decreases d,
{
    match slots[c as int] {
        Slot::Diff(neighbor, _) => {
            assert(d > 0 && chain(slots, neighbor, (d - 1) as nat));
            lemma_empty_avoided(slots, neighbor, (d - 1) as nat, x);
        },
        _ => {},
    }
}

/// What a chain leads to does not depend on a cell that it avoids.
pub proof fn lemma_frame<T>(slots: Seq<Slot<T>>, c: nat, d: nat, x: nat, slot: Slot<T>)
    requires
        chain(slots, c, d),
        avoids(slots, c, d, x),
        x < slots.len(),
    ensures
        chain(slots.update(x as int, slot), c, d),
        avoids(slots.update(x as int, slot), c, d, x),
        content(slots.update(x as int, slot), c, d) == content(slots, c, d),
        origin(slots.update(x as int, slot), c, d) == origin(slots, c, d),
        rebased_at(slots.update(x as int, slot), c, d) == rebased_at(slots, c, d).update(
            x as int,
            slot,
        ),
    decreases d,
{
    let changed = slots.update(x as int, slot);
    match slots[c as int] {
        Slot::Diff(neighbor, action) => {
            lemma_frame(slots, neighbor, (d - 1) as nat, x, slot);
            lemma_rebased_len(slots, neighbor, (d - 1) as nat);
            assert(rebased_at(changed, c, d) =~= rebased_at(slots, c, d).update(x as int, slot));
        },
        _ => {},
    }
}

/// Rebasing keeps the number of cells.
pub proof fn lemma_rebased_len<T>(slots: Seq<Slot<T>>, c: nat, d: nat)
    requires
        chain(slots, c, d),
    ensures
        rebased_at(slots, c, d).len() == slots.len(),
    decreases d,
{
    match slots[c as int] {
        Slot::Diff(neighbor, action) => {
            assert(d > 0 && chain(slots, neighbor, (d - 1) as nat));
            lemma_rebased_len(slots, neighbor, (d - 1) as nat);
            let below = rebased_at(slots, neighbor, (d - 1) as nat);
            let base = content(slots, neighbor, (d - 1) as nat);
            assert(rebased_at(slots, c, d) == below.update(
                neighbor as int,
                Slot::Diff(c, action.inverse(base)),
            ).update(c as int, Slot::Root(action.effect(base))));
        },
        _ => {},
    }
}

/// Rebasing leaves a cell off the chain as it is, and makes the cell at the
/// head of the chain the root, with its array.
pub proof fn lemma_rebased_cells<T>(slots: Seq<Slot<T>>, c: nat, d: nat, x: nat)
    requires
        chain(slots, c, d),
        x < slots.len(),
    ensures
        rebased_at(slots, c, d)[c as int] == Slot::Root(content(slots, c, d)),
        avoids(slots, c, d, x) ==> rebased_at(slots, c, d)[x as int] == slots[x as int],
    decreases d,
{
    match slots[c as int] {
        Slot::Diff(neighbor, _) => {
            lemma_rebased_len(slots, neighbor, (d - 1) as nat);
            lemma_rebased_cells(slots, neighbor, (d - 1) as nat, x);
        },
        _ => {},
    }
}

/// The slots after the root `n` and a cell `h` that points to it changed
/// places: `h` holds the array, `n` the inverse edit.
pub open spec fn flipped<T>(slots: Seq<Slot<T>>, n: nat, h: nat) -> Seq<Slot<T>> {
    let base = slots[n as int]->Root_0;
    let action = slots[h as int]->Diff_1;
    slots.update(n as int, Slot::Diff(h, action.inverse(base))).update(
        h as int,
        Slot::Root(action.effect(base)),
    )
}

/// One step of a rebase keeps every version's array. Its chain gets one step
/// shorter where it led through `h`, one longer where it ended in `n`
/// without that, and stays as it is in another family.
pub proof fn lemma_flip<T>(slots: Seq<Slot<T>>, n: nat, h: nat, x: nat, d: nat) -> (d2: nat)
    requires
        n < slots.len(),
        h < slots.len(),
        slots[n as int] is Root,
        slots[h as int] matches Slot::Diff(neighbor, action) && neighbor == n && action.applies(
            slots[n as int]->Root_0,
        ),
        chain(slots, x, d),
    ensures
        chain(flipped(slots, n, h), x, d2),
        content(flipped(slots, n, h), x, d2) == content(slots, x, d),
        d2 == d + (if !avoids(slots, x, d, h) {
            -1int
        } else if origin(slots, x, d) == n {
            1int
        } else {
            0int
        }),
        origin(flipped(slots, n, h), x, d2) == (if origin(slots, x, d) == n {
            h
        } else {
            origin(slots, x, d)
        }),
        forall|y: nat| y != h && avoids(slots, x, d, y) ==> #[trigger] avoids(flipped(slots, n, h), x, d2, y),
    decreases d,
{
    let base = slots[n as int]->Root_0;
    let action = slots[h as int]->Diff_1;
    let after = flipped(slots, n, h);
    action.law_inverse(base);
    if x == h {
        assert(chain(slots, n, (d - 1) as nat));
        assert(d == 1);
        assert(origin(slots, h, 1) == origin(slots, n, 0));
        assert(!avoids(slots, h, d, h));
        0
    } else if x == n {
        assert(d == 0);
        assert(chain(after, h, 0));
        assert(content(after, h, 0) == action.effect(base));
        assert(chain(after, n, 1));
        assert(avoids(slots, n, 0, h));
        assert(origin(after, n, 1) == origin(after, h, 0));
        assert forall|y: nat| y != h && avoids(slots, x, d, y) implies #[trigger] avoids(
            after,
            x,
            1,
            y,
        ) by {
            assert(avoids(after, h, 0, y));
        }
        1
    } else {
        match slots[x as int] {
            Slot::Diff(neighbor, edit) => {
                let below = lemma_flip(slots, n, h, neighbor, (d - 1) as nat);
                assert(after[x as int] == slots[x as int]);
                assert(chain(after, x, below + 1));
                assert(avoids(slots, x, d, h) == avoids(slots, neighbor, (d - 1) as nat, h));
                assert(origin(slots, x, d) == origin(slots, neighbor, (d - 1) as nat));
                assert(origin(after, x, below + 1) == origin(after, neighbor, below));
                assert forall|y: nat| y != h && avoids(slots, x, d, y) implies #[trigger] avoids(
                    after,
                    x,
                    below + 1,
                    y,
                ) by {
                    assert(avoids(slots, neighbor, (d - 1) as nat, y));
                    assert(avoids(after, neighbor, below, y));
                }
                below + 1
            },
            _ => {
                assert(after[x as int] == slots[x as int]);
                d
            },
        }
    }
}

/// Rebasing keeps every version a version, with the array it had.
pub proof fn lemma_rebase_keeps<T>(slots: Seq<Slot<T>>, h: nat, dh: nat, x: nat, dx: nat) -> (d2:
    nat)
    requires
        chain(slots, h, dh),
        chain(slots, x, dx),
    ensures
        chain(rebased_at(slots, h, dh), x, d2),
        content(rebased_at(slots, h, dh), x, d2) == content(slots, x, dx),
    decreases dh,
{
    match slots[h as int] {
        Slot::Diff(n, action) => {
            let before = rebased_at(slots, n, (dh - 1) as nat);
            assert(chain(slots, n, (dh - 1) as nat));
            let d1 = lemma_rebase_keeps(slots, n, (dh - 1) as nat, x, dx);
            lemma_rebased_len(slots, n, (dh - 1) as nat);
            lemma_no_cycle(slots, h, dh, n, (dh - 1) as nat);
            lemma_rebased_cells(slots, n, (dh - 1) as nat, h);
            lemma_rebased_cells(slots, n, (dh - 1) as nat, n);
            assert(n < before.len() && h < before.len());
            assert(before[n as int] is Root);
            assert(before[h as int] == slots[h as int]);
            assert(rebased_at(slots, h, dh) == flipped(before, n, h));
            lemma_flip(before, n, h, x, d1)
        },
        _ => dx,
    }
}

/// Making one version the root keeps every version, with the array it
/// stood for, and leaves the chosen one at depth 0.
pub proof fn law_rebase_keeps_versions<T>(slots: Seq<Slot<T>>, h: nat)
    requires
        consistent(slots),
        is_version(slots, h),
    ensures
        rebased(slots, h).len() == slots.len(),
        consistent(rebased(slots, h)),
        keeps(slots, rebased(slots, h)),
        forall|x: nat|
            x < slots.len() && slots[x as int] is Empty ==> (#[trigger] rebased(slots, h)[x as int])
                is Empty,
        depth(rebased(slots, h), h) == 0,
        rebased(slots, h)[h as int] == Slot::Root(value(slots, h)),
{
    let after = rebased(slots, h);
    let dh = depth(slots, h);
    lemma_rebased_len(slots, h, dh);
    lemma_rebased_cells(slots, h, dh, h);
    lemma_depth(after, h, 0);
    assert forall|x: nat| x < slots.len() && is_version(slots, x) implies #[trigger] is_version(
        after,
        x,
    ) by {
        let d2 = lemma_rebase_keeps(slots, h, dh, x, depth(slots, x));
        lemma_depth(after, x, d2);
    }
    assert forall|x: nat| x < slots.len() && is_version(slots, x) implies #[trigger] value(after, x)
        == value(slots, x) by {
        let d2 = lemma_rebase_keeps(slots, h, dh, x, depth(slots, x));
        lemma_depth(after, x, d2);
    }
    assert forall|x: nat| x < slots.len() && slots[x as int] is Empty implies (
    #[trigger] after[x as int]) is Empty by {
        lemma_empty_avoided(slots, h, dh, x);
        lemma_rebased_cells(slots, h, dh, x);
    }
    assert forall|x: nat| x < after.len() implies #[trigger] sound(after, x) by {
        assert(sound(slots, x));
    }
}

/// The slot is an edit against cell `c`.
pub open spec fn points_to<T>(slot: Slot<T>, c: nat) -> bool {
    slot matches Slot::Diff(neighbor, _) && neighbor == c
}

/// The number of cells among the first `upto` that are edits against cell `c`.
pub open spec fn links<T>(slots: Seq<Slot<T>>, c: nat, upto: nat) -> nat
    decreases upto,
{
    if upto == 0 {
        0
    } else {
        links(slots, c, (upto - 1) as nat) + if points_to(slots[upto - 1], c) {
            1nat
        } else {
            0nat
        }
    }
}

/// The number of cells that are edits against cell `c`.
pub open spec fn inbound<T>(slots: Seq<Slot<T>>, c: nat) -> nat {
    links(slots, c, slots.len())
}

/// No more cells point to a cell than were counted, and at least one where
/// one of them does.
pub proof fn lemma_links_bounds<T>(slots: Seq<Slot<T>>, c: nat, upto: nat, x: nat)
    ensures
        links(slots, c, upto) <= upto,
        x < upto && points_to(slots[x as int], c) ==> links(slots, c, upto) >= 1,
    decreases upto,
{
    if upto > 0 {
        lemma_links_bounds(slots, c, (upto - 1) as nat, x);
    }
}

/// Changing one cell changes the count by what that cell stops and starts
/// pointing to.
pub proof fn lemma_links_update<T>(slots: Seq<Slot<T>>, x: nat, slot: Slot<T>, c: nat, upto: nat)
    requires
        x < slots.len(),
        upto <= slots.len(),
    ensures
        links(slots.update(x as int, slot), c, upto) == links(slots, c, upto) - (if x < upto
            && points_to(slots[x as int], c) {
            1int
        } else {
            0int
        }) + (if x < upto && points_to(slot, c) {
            1int
        } else {
            0int
        }),
    decreases upto,
{
    if upto > 0 {
        lemma_links_update(slots, x, slot, c, (upto - 1) as nat);
        lemma_links_bounds(slots, c, (upto - 1) as nat, x);
    }
}

/// The slots after the version in cell `h` was made the root and `action`
/// was made to its array in place.
pub open spec fn edited<T>(slots: Seq<Slot<T>>, h: nat, action: Action<T>) -> Seq<Slot<T>> {
    rebased(slots, h).update(h as int, Slot::Root(action.effect(value(slots, h))))
}

/// A cell that no cell is an edit against is on no chain but its own.
pub proof fn lemma_unlinked_avoided<T>(slots: Seq<Slot<T>>, h: nat, x: nat, d: nat)
    requires
        chain(slots, x, d),
        inbound(slots, h) == 0,
        x != h,
    ensures
        avoids(slots, x, d, h),
    decreases d,
{
    match slots[x as int] {
        Slot::Diff(neighbor, _) => {
            lemma_links_bounds(slots, h, slots.len(), x);
            lemma_unlinked_avoided(slots, h, neighbor, (d - 1) as nat);
        },
        _ => {},
    }
}

/// Where the array of a root is replaced by one that is no shorter, every
/// chain stays a chain, no array gets shorter, and a version whose chain
/// avoids that root keeps its array.
pub proof fn lemma_grow<T>(slots: Seq<Slot<T>>, h: nat, data: Seq<T>, x: nat, d: nat)
    requires
        h < slots.len(),
        slots[h as int] matches Slot::Root(held) && held.len() <= data.len(),
        chain(slots, x, d),
    ensures
        chain(slots.update(h as int, Slot::Root(data)), x, d),
        content(slots.update(h as int, Slot::Root(data)), x, d).len() >= content(slots, x, d).len(),
        avoids(slots, x, d, h) ==> content(slots.update(h as int, Slot::Root(data)), x, d)
            == content(slots, x, d),
        x == h ==> d == 0,
    decreases d,
{
    match slots[x as int] {
        Slot::Diff(neighbor, _) => {
            lemma_grow(slots, h, data, neighbor, (d - 1) as nat);
        },
        _ => {},
    }
}

/// An edit in place that does not shorten the array keeps every version a
/// version, and gives the edited version its new array. Where no cell was
/// an edit against the edited one, a root, every other version keeps its
/// array and its depth.
pub proof fn law_edit_in_place<T>(slots: Seq<Slot<T>>, h: nat, action: Action<T>)
    requires
        consistent(slots),
        is_version(slots, h),
        action.applies(value(slots, h)),
        action !is Pop,
    ensures
        edited(slots, h, action).len() == slots.len(),
        consistent(edited(slots, h, action)),
        stays(slots, edited(slots, h, action)),
        value(edited(slots, h, action), h) == action.effect(value(slots, h)),
        depth(edited(slots, h, action), h) == 0,
        slots[h as int] is Root && inbound(slots, h) == 0 ==> keeps_but(
            slots,
            edited(slots, h, action),
            h,
        ),
        slots[h as int] is Root && inbound(slots, h) == 0 ==> forall|x: nat|
            x < slots.len() && x != h && is_version(slots, x) ==> #[trigger] depth(
                edited(slots, h, action),
                x,
            ) == depth(slots, x),
{
    let middle = rebased(slots, h);
    let after = edited(slots, h, action);
    let data = action.effect(value(slots, h));
    law_rebase_keeps_versions(slots, h);
    assert forall|x: nat| x < slots.len() && is_version(slots, x) implies #[trigger] is_version(
        after,
        x,
    ) by {
        assert(is_version(middle, x));
        lemma_grow(middle, h, data, x, depth(middle, x));
    }
    assert forall|x: nat| x < after.len() implies #[trigger] sound(after, x) by {
        assert(sound(slots, x));
        if slots[x as int] is Empty {
            assert(middle[x as int] is Empty);
        }
    }
    lemma_depth(after, h, 0);
    if slots[h as int] is Root && inbound(slots, h) == 0 {
        assert(depth(slots, h) == 0);
        assert(middle == slots);
        assert(after == slots.update(h as int, Slot::Root(data)));
        assert forall|x: nat| x < slots.len() && x != h && is_version(slots, x) implies #[trigger] value(
            after,
            x,
        ) == value(slots, x) by {
            let d = depth(slots, x);
            lemma_unlinked_avoided(slots, h, x, d);
            lemma_grow(slots, h, data, x, d);
            lemma_depth(after, x, d);
        }
        assert forall|x: nat| x < slots.len() && x != h && is_version(slots, x) implies #[trigger] depth(
            after,
            x,
        ) == depth(slots, x) by {
            let d = depth(slots, x);
            lemma_grow(slots, h, data, x, d);
            lemma_depth(after, x, d);
        }
    }
}

/// The chains of the versions in cells `x` and `h` end in the same root and
/// have no other cell in common.
pub open spec fn meet_at_root<T>(slots: Seq<Slot<T>>, x: nat, h: nat) -> bool {
    &&& origin(slots, x, depth(slots, x)) == origin(slots, h, depth(slots, h))
    &&& forall|y: nat|
        !avoids(slots, x, depth(slots, x), y) && !#[trigger] avoids(slots, h, depth(slots, h), y)
            ==> slots[y as int] is Root
}

/// Rebasing on `h` adds the length of `h`'s chain to the chain of a version
/// that shares only the root with it.
pub proof fn lemma_rebase_depth<T>(slots: Seq<Slot<T>>, h: nat, dh: nat, x: nat, dx: nat)
    requires
        chain(slots, h, dh),
        chain(slots, x, dx),
        origin(slots, x, dx) == origin(slots, h, dh),
        forall|y: nat|
            !avoids(slots, x, dx, y) && !#[trigger] avoids(slots, h, dh, y) ==> slots[y as int] is Root,
    ensures
        chain(rebased_at(slots, h, dh), x, dx + dh),
        origin(rebased_at(slots, h, dh), x, dx + dh) == h,
        forall|y: nat|
            avoids(slots, x, dx, y) && avoids(slots, h, dh, y) ==> #[trigger] avoids(
                rebased_at(slots, h, dh),
                x,
                dx + dh,
                y,
            ),
    decreases dh,
{
    match slots[h as int] {
        Slot::Diff(n, action) => {
            let dn = (dh - 1) as nat;
            let before = rebased_at(slots, n, dn);
            assert forall|y: nat| !avoids(slots, x, dx, y) && !#[trigger] avoids(
                slots,
                n,
                dn,
                y,
            ) implies slots[y as int] is Root by {
                assert(!avoids(slots, h, dh, y));
            }
            assert(chain(slots, n, dn));
            assert(origin(slots, h, dh) == origin(slots, n, dn));
            lemma_rebase_depth(slots, n, dn, x, dx);
            lemma_rebased_len(slots, n, dn);
            lemma_no_cycle(slots, h, dh, n, dn);
            lemma_rebased_cells(slots, n, dn, h);
            lemma_rebased_cells(slots, n, dn, n);
            assert(n < before.len() && h < before.len());
            assert(before[n as int] is Root);
            assert(before[h as int] == slots[h as int]);
            assert(rebased_at(slots, h, dh) == flipped(before, n, h));
            assert(!avoids(slots, h, dh, h));
            assert(avoids(slots, x, dx, h));
            assert(avoids(before, x, dx + dn, h));
            let d2 = lemma_flip(before, n, h, x, dx + dn);
            assert forall|y: nat| avoids(slots, x, dx, y) && avoids(slots, h, dh, y) implies #[trigger] avoids(
                rebased_at(slots, h, dh),
                x,
                dx + dh,
                y,
            ) by {
                assert(avoids(before, x, dx + dn, y));
            }
        },
        _ => {
            assert(origin(slots, h, dh) == h);
        },
    }
}

/// After a read of the version in cell `h`, that version is at depth 0, and
/// a version whose chain met that of `h` only in the root is as deep as the
/// two were together.
pub proof fn law_rebase_rotation<T>(slots: Seq<Slot<T>>, h: nat, x: nat)
    requires
        consistent(slots),
        is_version(slots, h),
        is_version(slots, x),
        meet_at_root(slots, x, h),
    ensures
        depth(rebased(slots, h), h) == 0,
        depth(rebased(slots, h), x) == depth(slots, h) + depth(slots, x),
{
    law_rebase_keeps_versions(slots, h);
    lemma_rebase_depth(slots, h, depth(slots, h), x, depth(slots, x));
    lemma_depth(rebased(slots, h), x, depth(slots, x) + depth(slots, h));
}

} // verus!
