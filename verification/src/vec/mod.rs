//! A persistent vector as a family of versions. Each version is a cell that
//! holds the array itself or an edit against a neighbor; reading a version
//! makes it the root of its family.
//!
//! The cells live in a [`Store`], and a [`DVec`] is a handle that names one
//! of them. Every operation takes the store it works on. The store counts
//! the handles of each cell: [`DVec::clone`] gives out one more,
//! [`DVec::release`] takes one back. A cell without a handle that no cell
//! is an edit against is emptied, and taken again for a later version.

pub mod bound;
pub mod family;
pub mod grow;
pub mod model;
pub mod reclaim;
pub mod sweep;

use crate::cell::DCell;
use crate::vec::family::{law_edit_elsewhere, same_family};
use crate::vec::reclaim::{law_reclaim, law_reclaim_holders, outlived, reclaimed};
use crate::vec::sweep::{
    lemma_old_root_after_edit, lemma_old_root_after_fork, lemma_old_root_after_rebase, root_of,
};
use crate::vec::grow::{
    forked, grown, law_fork_keeps_versions, law_new_root, lemma_grown_frame, lemma_links_grown,
    vacant,
};
use crate::vec::model::{
    chain, consistent, content, depth, edited, inbound, is_version, law_edit_in_place,
    law_rebase_keeps_versions, lemma_frame, lemma_links_bounds, lemma_links_update,
    lemma_no_cycle, lemma_rebased_cells, lemma_rebased_len, origin, rebased, rebased_at, sound,
    stays, value, Action, Slot,
};
use vstd::prelude::*;

verus! {

impl<T> Action<T> {
    /// Makes the edit to `data` and returns the edit that undoes it.
    pub fn enact(self, data: &mut Vec<T>) -> (reverse: Action<T>)
        requires
            self.applies(old(data)@),
        ensures
            final(data)@ == self.effect(old(data)@),
            reverse == self.inverse(old(data)@),
    {
        match self {
            Action::Pop => {
                let value = data.pop().unwrap();
                Action::Push(value)
            },
            Action::Push(value) => {
                data.push(value);
                Action::Pop
            },
            Action::Replace(index, element) => {
                let mut element = element;
                std::mem::swap(&mut data[index], &mut element);
                Action::Replace(index, element)
            },
        }
    }
}

/// A handle for a version: it names one cell of a store. It is not `Clone`:
/// the store gives out and takes back handles, so that it can tell a cell
/// with one handle from a shared one.
pub struct DVec {
    cell: usize,
}

/// What a cell holds while no operation is at work on it.
enum DVecState<T> {
    Root(Vec<T>),
    Diff(DVec, Action<T>),
}

impl<T> DVecState<T> {
    /// The cell that this state is an edit against, if it is one.
    fn neighbor(&self) -> (next: Option<usize>)
        ensures
            match *self {
                DVecState::Root(_) => next is None,
                DVecState::Diff(base, _) => next == Some(base.cell),
            },
    {
        match self {
            DVecState::Root(_) => None,
            DVecState::Diff(base, _) => Some(base.cell),
        }
    }
}

/// The cells of any number of families of versions. For each cell the store
/// counts the handles given out for it and the cells that are edits against
/// it.
pub struct Store<T> {
    cells: Vec<DCell<DVecState<T>>>,
    handles: Vec<usize>,
    links: Vec<usize>,
    /// Emptied cells, to be used again.
    free: Vec<usize>,
}

/// The slot that a cell stands for.
spec fn slot_of<T>(cell: DCell<DVecState<T>>) -> Slot<T> {
    match cell@ {
        None => Slot::Empty,
        Some(DVecState::Root(data)) => Slot::Root(data@),
        Some(DVecState::Diff(neighbor, action)) => Slot::Diff(neighbor.cell as nat, action),
    }
}

impl<T> View for Store<T> {
    type V = Seq<Slot<T>>;

    /// The cells as slots.
    closed spec fn view(&self) -> Seq<Slot<T>> {
        Seq::new(self.cells@.len(), |c: int| slot_of(self.cells@[c]))
    }
}

impl DVec {
    /// The cell that this handle names.
    pub closed spec fn cell(&self) -> nat {
        self.cell as nat
    }
}

impl<T> Store<T> {
    /// For each cell, the number of handles given out for it and not
    /// released.
    pub closed spec fn handles(&self) -> Seq<usize> {
        self.handles@
    }

    /// The handle names a cell of this store and is counted there.
    pub open spec fn has(&self, handle: &DVec) -> bool {
        handle.cell() < self@.len() && self.handles()[handle.cell() as int] >= 1
    }

    /// The array that the version which `handle` names stands for.
    pub open spec fn value(&self, handle: &DVec) -> Seq<T> {
        value(self@, handle.cell())
    }

    /// The number of edits between the version which `handle` names and the
    /// root of its family.
    pub open spec fn depth(&self, handle: &DVec) -> nat {
        depth(self@, handle.cell())
    }

    /// Every cell for which a handle is counted here and in `after` stands
    /// for the same array there.
    pub open spec fn kept_in(&self, after: &Store<T>) -> bool {
        &&& self@.len() <= after@.len()
        &&& forall|x: nat|
            x < self@.len() && self.handles()[x as int] >= 1 && after.handles()[x as int] >= 1
                ==> #[trigger] value(after@, x) == value(self@, x)
    }

    /// Every cell but `c` for which a handle is counted here and in `after`
    /// stands for the same array there.
    pub open spec fn kept_but_in(&self, c: nat, after: &Store<T>) -> bool {
        &&& self@.len() <= after@.len()
        &&& forall|x: nat|
            x < self@.len() && x != c && self.handles()[x as int] >= 1 && after.handles()[x as int]
                >= 1 ==> #[trigger] value(after@, x) == value(self@, x)
    }

    /// Every cell outside the family of cell `c` for which a handle is
    /// counted here and in `after` stands for the same array there.
    pub open spec fn kept_elsewhere_in(&self, c: nat, after: &Store<T>) -> bool {
        &&& self@.len() <= after@.len()
        &&& forall|x: nat|
            x < self@.len() && !same_family(self@, x, c) && self.handles()[x as int] >= 1
                && after.handles()[x as int] >= 1 ==> #[trigger] value(after@, x) == value(self@, x)
    }

    /// The slots after a read of the version which `handle` names: that
    /// version is the root, and the cells that this left without a handle
    /// and without an edit against them, from the old root on, are emptied.
    pub open spec fn after_read(&self, handle: &DVec) -> Seq<Slot<T>> {
        reclaimed(
            rebased(self@, handle.cell()),
            self.handles(),
            root_of(self@, handle.cell()),
            depth(self@, handle.cell()),
        )
    }

    /// The cell which `handle` names has this one handle, and no cell is an
    /// edit against it.
    pub open spec fn unique(&self, handle: &DVec) -> bool {
        self.handles()[handle.cell() as int] == 1 && inbound(self@, handle.cell()) == 0
    }

    /// The counts are in step with the cells, and the cells listed for use
    /// are empty, each listed once.
    closed spec fn counted(&self) -> bool {
        &&& self.handles@.len() == self.cells@.len()
        &&& self.links@.len() == self.cells@.len()
        &&& forall|c: nat| c < self.cells@.len() ==> #[trigger] self.links@[c as int] == inbound(self@, c)
        &&& forall|i: int|
            0 <= i < self.free@.len() ==> (#[trigger] self.free@[i]) < self.cells@.len()
                && self@[self.free@[i] as int] is Empty
        &&& forall|i: int, j: int|
            0 <= i < j < self.free@.len() ==> #[trigger] self.free@[i] != #[trigger] self.free@[j]
    }

    /// The cells listed for use.
    closed spec fn spare(&self) -> Seq<usize> {
        self.free@
    }

    /// A cell for which a handle is counted is a version.
    closed spec fn held(&self) -> bool {
        forall|c: nat|
            c < self.cells@.len() && #[trigger] self.handles@[c as int] >= 1 ==> is_version(self@, c)
    }

    /// The invariant of the store: every cell is empty or a version, one
    /// with a handle is a version, and the counts are in step with the
    /// cells.
    pub closed spec fn wf(&self) -> bool {
        self.counted() && consistent(self@) && self.held()
    }

    /// A store without cells.
    pub fn new() -> (store: Store<T>)
        ensures
            store.wf(),
            store@.len() == 0,
    {
        Store { cells: Vec::new(), handles: Vec::new(), links: Vec::new(), free: Vec::new() }
    }

    /// The number of handles given out, and not released, for the cell
    /// which `handle` names.
    pub fn handle_count(&self, handle: &DVec) -> (count: usize)
        requires
            self.wf(),
            self.has(handle),
        ensures
            count == self.handles()[handle.cell() as int],
    {
        self.handles[handle.cell]
    }

    /// Whether the cell which `handle` names has this one handle and no
    /// cell is an edit against it.
    pub fn is_unique(&self, handle: &DVec) -> (unique: bool)
        requires
            self.wf(),
            self.has(handle),
        ensures
            unique == self.unique(handle),
    {
        self.handles[handle.cell] == 1 && self.links[handle.cell] == 0
    }

    /// A well-formed store has one handle count for each cell, and a cell
    /// with a handle is a version.
    pub proof fn lemma_handles(&self)
        requires
            self.wf(),
        ensures
            self.handles().len() == self@.len(),
            forall|handle: DVec| #[trigger] self.has(&handle) ==> is_version(self@, handle.cell()),
    {
        assert forall|handle: DVec| #[trigger] self.has(&handle) implies is_version(
            self@,
            handle.cell(),
        ) by {
            assert(self.handles@[handle.cell() as int] >= 1);
        }
    }

    /// Reclaiming from `start` in the slots `turned`, which keep the
    /// versions of this store, leaves a well-formed store in which every
    /// version with a handle is what it was in `turned`.
    proof fn lemma_settled(&self, turned: Seq<Slot<T>>, after: &Store<T>, start: nat, d: nat)
        requires
            self.wf(),
            consistent(turned),
            stays(self@, turned),
            chain(turned, start, d),
            after.counted(),
            after.handles().len() == turned.len(),
            after@ == reclaimed(turned, after.handles(), start, d),
            forall|x: nat|
                x < turned.len() && #[trigger] after.handles()[x as int] >= 1 ==> is_version(
                    turned,
                    x,
                ),
        ensures
            after.wf(),
            after@.len() == turned.len(),
            forall|x: nat|
                x < turned.len() && after.handles()[x as int] >= 1 ==> #[trigger] value(after@, x)
                    == value(turned, x),
            forall|x: nat|
                x < turned.len() && after.handles()[x as int] >= 1 ==> #[trigger] depth(after@, x)
                    == depth(turned, x),
    {
        law_reclaim(turned, after.handles(), start, d);
        law_reclaim_holders(turned, after.handles(), start, d);
        assert forall|x: nat|
            x < after.cells@.len() && #[trigger] after.handles@[x as int] >= 1 implies is_version(
            after@,
            x,
        ) by {
            assert(after.handles()[x as int] >= 1);
            assert(is_version(turned, x));
        }
    }

    /// In a consistent store no cell is an edit against a cell that is not
    /// there.
    proof fn lemma_no_link_outside(&self, c: nat, upto: nat)
        requires
            consistent(self@),
            c >= self@.len(),
            upto <= self@.len(),
        ensures
            crate::vec::model::links(self@, c, upto) == 0,
        decreases upto,
    {
        if upto > 0 {
            self.lemma_no_link_outside(c, (upto - 1) as nat);
            let x = (upto - 1) as nat;
            assert(sound(self@, x));
            if self@[x as int] is Diff {
                let d = depth(self@, x);
                assert(chain(self@, x, d));
                assert(chain(self@, self@[x as int]->Diff_0, (d - 1) as nat));
            }
        }
    }
}

impl DVec {
    /// Takes the array of this version out of the store. Afterwards this
    /// cell is empty and every cell that was on its chain points towards it,
    /// so that the family is consistent again once the cell is refilled.
    fn extract_data<T>(&self, store: &mut Store<T>, Ghost(d): Ghost<nat>) -> (taken: (
        Vec<T>,
        usize,
    ))
        requires
            old(store).counted(),
            chain(old(store)@, self.cell(), d),
        ensures
            final(store).counted(),
            final(store)@ == rebased_at(old(store)@, self.cell(), d).update(
                self.cell() as int,
                Slot::Empty,
            ),
            taken.0@ == content(old(store)@, self.cell(), d),
            taken.1 == origin(old(store)@, self.cell(), d),
            final(store).handles() == old(store).handles(),
            final(store).spare() == old(store).spare(),
        decreases d, 0nat,
    {
        let ghost before = store@;
        let ghost c = self.cell as nat;
        proof {
            assert(before[c as int] == slot_of(store.cells@[c as int]));
        }
        let state = store.cells[self.cell].take();
        proof {
            assert(store@ =~= before.update(c as int, Slot::Empty));
        }
        match state {
            DVecState::Root(data) => {
                proof {
                    assert forall|t: nat| t < store.cells@.len() implies #[trigger] store.links@[t as int]
                        == inbound(store@, t) by {
                        lemma_links_update(before, c, Slot::Empty, t, before.len());
                    }
                }
                (data, self.cell)
            },
            DVecState::Diff(neighbor, action) => {
                let ghost n = neighbor.cell as nat;
                proof {
                    assert(before[c as int] == Slot::Diff(n, action));
                    assert(chain(before, n, (d - 1) as nat));
                    assert(origin(before, c, d) == origin(before, n, (d - 1) as nat));
                    lemma_links_bounds(before, n, before.len(), c);
                    assert(store.links@[n as int] == inbound(before, n));
                }
                let links = store.links[neighbor.cell];
                store.links[neighbor.cell] = links - 1;
                proof {
                    assert forall|t: nat| t < store.cells@.len() implies #[trigger] store.links@[t as int]
                        == inbound(store@, t) by {
                        lemma_links_update(before, c, Slot::Empty, t, before.len());
                    }
                    lemma_no_cycle(before, c, d, n, (d - 1) as nat);
                    lemma_frame(before, n, (d - 1) as nat, c, Slot::Empty);
                    lemma_rebased_len(before, n, (d - 1) as nat);
                }
                let taken = neighbor.make_diff(store, self, action, Ghost((d - 1) as nat));
                proof {
                    assert(store@ =~= rebased_at(before, c, d).update(c as int, Slot::Empty));
                }
                taken
            },
        }
    }

    /// Makes this version, which must be the root once its array is taken
    /// out, an edit against `root`: `root` is to stand for this version's
    /// array with `action` made to it. Returns that array, and the cell
    /// that was the root before; `root`, empty before and after, is left for
    /// the caller to fill.
    fn make_diff<T>(
        &self,
        store: &mut Store<T>,
        root: &DVec,
        action: Action<T>,
        Ghost(d): Ghost<nat>,
    ) -> (made: (Vec<T>, usize))
        requires
            old(store).counted(),
            root.cell() < old(store)@.len(),
            old(store)@[root.cell() as int] is Empty,
            chain(old(store)@, self.cell(), d),
            action.applies(content(old(store)@, self.cell(), d)),
        ensures
            final(store).counted(),
            final(store)@ == rebased_at(old(store)@, self.cell(), d).update(
                self.cell() as int,
                Slot::Diff(root.cell(), action.inverse(content(old(store)@, self.cell(), d))),
            ),
            made.0@ == action.effect(content(old(store)@, self.cell(), d)),
            made.1 == origin(old(store)@, self.cell(), d),
            final(store).handles() == old(store).handles(),
            final(store).spare() == old(store).spare(),
        decreases d, 1nat,
    {
        let ghost before = store@;
        let ghost n = self.cell as nat;
        let ghost c = root.cell as nat;
        let (mut data, first) = self.extract_data(store, Ghost(d));
        let ghost emptied = store@;
        let reverse = action.enact(&mut data);
        proof {
            lemma_rebased_len(before, n, d);
            assert(emptied[n as int] == slot_of(store.cells@[n as int]));
        }
        store.cells[self.cell].put(DVecState::Diff(DVec { cell: root.cell }, reverse));
        proof {
            assert(store@ =~= emptied.update(n as int, Slot::Diff(c, reverse)));
            lemma_links_bounds(store@, c, store@.len(), n);
            lemma_links_update(emptied, n, Slot::Diff(c, reverse), c, emptied.len());
            assert(store.links@[c as int] == inbound(emptied, c));
            assert(inbound(store@, c) == inbound(emptied, c) + 1);
            assert(store@.len() == store.cells.len() <= usize::MAX);
        }
        let links = store.links[root.cell];
        store.links[root.cell] = links + 1;
        proof {
            assert forall|t: nat| t < store.cells@.len() implies #[trigger] store.links@[t as int]
                == inbound(store@, t) by {
                lemma_links_update(emptied, n, Slot::Diff(c, reverse), t, emptied.len());
            }
        }
        (data, first)
    }
}

impl DVec {
    /// A new family whose one version stands for the empty array.
    pub fn new<T>(store: &mut Store<T>) -> (handle: DVec)
        requires
            old(store).wf(),
        ensures
            final(store).wf(),
            vacant(old(store)@, handle.cell()),
            final(store)@ == grown(old(store)@, handle.cell(), Slot::Root(Seq::<T>::empty())),
            final(store).handles() == grown(old(store).handles(), handle.cell(), 1),
            final(store).value(&handle) == Seq::<T>::empty(),
            final(store).depth(&handle) == 0,
            old(store).kept_in(final(store)),
    {
        DVec::with(store, Vec::new())
    }

    /// A new family whose one version stands for `data`. It takes an empty
    /// cell of the store, or a new cell behind the last.
    pub fn with<T>(store: &mut Store<T>, data: Vec<T>) -> (handle: DVec)
        requires
            old(store).wf(),
        ensures
            final(store).wf(),
            vacant(old(store)@, handle.cell()),
            final(store)@ == grown(old(store)@, handle.cell(), Slot::Root(data@)),
            final(store).handles() == grown(old(store).handles(), handle.cell(), 1),
            final(store).value(&handle) == data@,
            final(store).depth(&handle) == 0,
            old(store).kept_in(final(store)),
    {
        let ghost before = store@;
        let placeholder = DVec::new_placeholder(store);
        let ghost added = store@;
        let ghost listed = store.spare();
        let ghost r = placeholder.cell as nat;
        proof {
            assert(added[r as int] == slot_of(store.cells@[r as int]));
        }
        store.cells[placeholder.cell].put(DVecState::Root(data));
        proof {
            let after = store@;
            assert(after =~= added.update(r as int, Slot::Root(data@)));
            assert(after =~= grown(before, r, Slot::Root(data@)));
            assert forall|t: nat| t < store.cells@.len() implies #[trigger] store.links@[t as int]
                == inbound(after, t) by {
                lemma_links_update(added, r, Slot::Root(data@), t, added.len());
            }
            law_new_root(before, r, data@);
            assert forall|i: int| 0 <= i < store.free@.len() implies (#[trigger] store.free@[i])
                < store.cells@.len() && after[store.free@[i] as int] is Empty by {
                assert(store.free@ == listed);
                assert(listed[i] != r);
                assert(added[store.free@[i] as int] is Empty);
            }
            assert(store.counted());
            assert forall|c: nat|
                c < store.cells@.len() && #[trigger] store.handles@[c as int] >= 1 implies is_version(
                after,
                c,
            ) by {
                if c != r {
                    assert(old(store).handles@[c as int] >= 1);
                }
            }
            assert forall|x: nat|
                x < before.len() && old(store).handles()[x as int] >= 1 && store.handles()[x as int]
                    >= 1 implies #[trigger] value(after, x) == value(before, x) by {
                assert(old(store).handles@[x as int] >= 1);
            }
        }
        placeholder
    }

    /// An empty cell with one handle: one of those listed for use, or a new
    /// one behind the last.
    fn new_placeholder<T>(store: &mut Store<T>) -> (handle: DVec)
        requires
            old(store).wf(),
        ensures
            final(store).counted(),
            vacant(old(store)@, handle.cell()),
            final(store)@ == grown(old(store)@, handle.cell(), Slot::Empty),
            final(store).handles() == grown(old(store).handles(), handle.cell(), 1),
            forall|i: int|
                0 <= i < final(store).spare().len() ==> #[trigger] final(store).spare()[i]
                    != handle.cell(),
    {
        let ghost before = store@;
        match store.free.pop() {
            Some(cell) => {
                proof {
                    assert(old(store).free@[old(store).free@.len() - 1] == cell);
                }
                store.handles[cell] = 1;
                proof {
                    assert(store@ =~= grown(before, cell as nat, Slot::Empty));
                }
                DVec { cell }
            },
            None => {
                let cell = store.cells.len();
                store.cells.push(DCell::new());
                store.handles.push(1);
                store.links.push(0);
                proof {
                    let after = store@;
                    assert(after =~= before.push(Slot::Empty));
                    assert forall|t: nat| t < store.cells@.len() implies #[trigger] store.links@[t as int]
                        == inbound(after, t) by {
                        lemma_links_grown(before, before.len(), Slot::Empty, t);
                        if t == before.len() {
                            old(store).lemma_no_link_outside(t, before.len());
                        }
                    }
                }
                DVec { cell }
            },
        }
    }

    /// Makes this version the root of its family and calls `func` on its
    /// array.
    pub fn read<T, F, R>(&self, store: &mut Store<T>, func: F) -> (result: R) where
        F: FnOnce(&[T]) -> R,

        requires
            old(store).wf(),
            old(store).has(self),
            forall|data: &[T]| data@ == old(store).value(self) ==> func.requires((data,)),
        ensures
            final(store).wf(),
            final(store)@ == old(store).after_read(self),
            final(store).handles() == old(store).handles(),
            final(store).depth(self) == 0,
            old(store).kept_in(final(store)),
            exists|data: &[T]| data@ == old(store).value(self) && func.ensures((data,), result),
    {
        let ghost before = store@;
        let ghost c = self.cell as nat;
        let ghost d = depth(before, c);
        proof {
            store.lemma_handles();
            assert(is_version(before, c));
        }
        let (data, first) = self.extract_data(store, Ghost(d));
        let ghost emptied = store@;
        let result = func(data.as_slice());
        proof {
            lemma_rebased_len(before, c, d);
            lemma_rebased_cells(before, c, d, c);
            assert(emptied[c as int] == slot_of(store.cells@[c as int]));
        }
        store.cells[self.cell].put(DVecState::Root(data));
        let ghost turned = store@;
        proof {
            assert(turned =~= emptied.update(c as int, Slot::Root(data@)));
            assert(turned =~= rebased(before, c));
            assert forall|t: nat| t < store.cells@.len() implies #[trigger] store.links@[t as int]
                == inbound(turned, t) by {
                lemma_links_update(emptied, c, Slot::Root(data@), t, emptied.len());
            }
            lemma_old_root_after_rebase(before, c);
        }
        let old_root = DVec { cell: first };
        old_root.reclaim(store, Ghost(d));
        proof {
            law_rebase_keeps_versions(before, c);
            old(store).lemma_settled(turned, store, first as nat, d);
        }
        result
    }
}

impl DVec {
    /// The length of this version's array. Makes this version the root of
    /// its family.
    pub fn len<T>(&self, store: &mut Store<T>) -> (len: usize)
        requires
            old(store).wf(),
            old(store).has(self),
        ensures
            final(store).wf(),
            final(store)@ == old(store).after_read(self),
            final(store).handles() == old(store).handles(),
            final(store).depth(self) == 0,
            old(store).kept_in(final(store)),
            len == old(store).value(self).len(),
    {
        let measure = |data: &[T]| -> (len: usize)
            ensures
                len == data@.len(),
            { data.len() };
        self.read(store, measure)
    }

    /// A clone of the element at `index` of this version's array. Makes this
    /// version the root of its family.
    pub fn get<T: Clone>(&self, store: &mut Store<T>, index: usize) -> (element: T)
        requires
            old(store).wf(),
            old(store).has(self),
            index < old(store).value(self).len(),
        ensures
            final(store).wf(),
            final(store)@ == old(store).after_read(self),
            final(store).handles() == old(store).handles(),
            final(store).depth(self) == 0,
            old(store).kept_in(final(store)),
            cloned::<T>(old(store).value(self)[index as int], element),
    {
        let pick = |data: &[T]| -> (element: T)
            requires
                index < data@.len(),
            ensures
                cloned::<T>(data@[index as int], element),
            { data[index].clone() };
        self.read(store, pick)
    }

    /// The number of edits between this version and the root of its family.
    pub fn depth<T>(&self, store: &Store<T>) -> (depth: usize)
        requires
            store.wf(),
            store.has(self),
        ensures
            depth == store.depth(self),
    {
        let ghost total = store.depth(self);
        proof {
            assert(is_version(store@, self.cell()));
            crate::vec::bound::lemma_depth_below_len(store@, self.cell(), total);
            assert(store@.len() == store.cells.len() <= usize::MAX);
        }
        let mut at = self.cell;
        let mut depth: usize = 0;
        loop
            invariant
                depth <= total <= usize::MAX,
                chain(store@, at as nat, (total - depth) as nat),
            ensures
                depth == total,
            decreases total - depth,
        {
            proof {
                assert(store@[at as int] == slot_of(store.cells@[at as int]));
            }
            let next = store.cells[at].read(DVecState::neighbor);
            match next {
                None => {
                    break ;
                },
                Some(base) => {
                    at = base;
                    depth = depth + 1;
                },
            }
        }
        depth
    }

    /// A second handle for this version.
    pub fn clone<T>(&self, store: &mut Store<T>) -> (handle: DVec)
        requires
            old(store).wf(),
            old(store).has(self),
            old(store).handles()[self.cell() as int] < usize::MAX,
        ensures
            final(store).wf(),
            handle.cell() == self.cell(),
            final(store)@ == old(store)@,
            final(store).handles() == old(store).handles().update(
                self.cell() as int,
                (old(store).handles()[self.cell() as int] + 1) as usize,
            ),
    {
        let ghost before = store@;
        let handles = store.handles[self.cell];
        store.handles[self.cell] = handles + 1;
        proof {
            assert(store@ =~= before);
        }
        DVec { cell: self.cell }
    }

    /// Gives this handle up. A cell that is left without a handle, and that
    /// no cell is an edit against, is emptied, and so is each cell down its
    /// chain that is left in that state by it.
    pub fn release<T>(self, store: &mut Store<T>)
        requires
            old(store).wf(),
            old(store).has(&self),
        ensures
            final(store).wf(),
            final(store).handles() == old(store).handles().update(
                self.cell() as int,
                (old(store).handles()[self.cell() as int] - 1) as usize,
            ),
            final(store)@ == reclaimed(
                old(store)@,
                final(store).handles(),
                self.cell(),
                old(store).depth(&self),
            ),
            outlived(old(store)@, final(store).handles(), final(store)@),
            old(store).kept_in(final(store)),
    {
        let ghost before = store@;
        let ghost d = depth(before, self.cell());
        proof {
            store.lemma_handles();
        }
        let handles = store.handles[self.cell];
        store.handles[self.cell] = handles - 1;
        proof {
            assert(store@ =~= before);
            law_reclaim(before, store.handles(), self.cell(), d);
            law_reclaim_holders(before, store.handles(), self.cell(), d);
        }
        self.reclaim(store, Ghost(d));
        proof {
            let after = store@;
            assert forall|c: nat|
                c < store.cells@.len() && #[trigger] store.handles@[c as int] >= 1 implies is_version(
                after,
                c,
            ) by {
                assert(old(store).handles@[c as int] >= 1);
                assert(after[c as int] == before[c as int]);
            }
            assert forall|x: nat|
                x < before.len() && old(store).handles()[x as int] >= 1 && store.handles()[x as int]
                    >= 1 implies #[trigger] value(after, x) == value(before, x) by {
                assert(old(store).handles@[x as int] >= 1);
            }
        }
    }

    /// Empties this cell if no handle is counted for it and no cell is an
    /// edit against it, and then treats its neighbor in the same way.
    fn reclaim<T>(&self, store: &mut Store<T>, Ghost(d): Ghost<nat>)
        requires
            old(store).counted(),
            chain(old(store)@, self.cell(), d),
        ensures
            final(store).counted(),
            final(store).handles() == old(store).handles(),
            final(store)@ == reclaimed(old(store)@, old(store).handles(), self.cell(), d),
        decreases d,
    {
        let ghost before = store@;
        let ghost c = self.cell as nat;
        if store.handles[self.cell] == 0 && store.links[self.cell] == 0 {
            proof {
                assert(before[c as int] == slot_of(store.cells@[c as int]));
            }
            let state = store.cells[self.cell].take();
            store.free.push(self.cell);
            proof {
                assert(store@ =~= before.update(c as int, Slot::Empty));
            }
            match state {
                DVecState::Root(_) => {
                    proof {
                        assert forall|t: nat| t < store.cells@.len() implies #[trigger] store.links@[t as int]
                            == inbound(store@, t) by {
                            lemma_links_update(before, c, Slot::Empty, t, before.len());
                        }
                    }
                },
                DVecState::Diff(neighbor, action) => {
                    let ghost n = neighbor.cell as nat;
                    proof {
                        assert(before[c as int] == Slot::Diff(n, action));
                        assert(chain(before, n, (d - 1) as nat));
                        lemma_links_bounds(before, n, before.len(), c);
                        assert(store.links@[n as int] == inbound(before, n));
                    }
                    let links = store.links[neighbor.cell];
                    store.links[neighbor.cell] = links - 1;
                    proof {
                        assert forall|t: nat| t < store.cells@.len() implies #[trigger] store.links@[t as int]
                            == inbound(store@, t) by {
                            lemma_links_update(before, c, Slot::Empty, t, before.len());
                        }
                        lemma_no_cycle(before, c, d, n, (d - 1) as nat);
                        lemma_frame(before, n, (d - 1) as nat, c, Slot::Empty);
                    }
                    neighbor.reclaim(store, Ghost((d - 1) as nat));
                },
            }
        }
    }
}

impl<T> Store<T> {
    /// What an edit of the version which `handle` names leaves of the
    /// store, as the slots and the handle counts: where that cell is
    /// unique, the edit is made in place; otherwise a vacant cell takes the
    /// edited array, and the handle moves to it. Either way the cells
    /// that this left without a handle and without an edit against them,
    /// from the old root on, are emptied.
    pub open spec fn mutated(
        &self,
        handle: &DVec,
        action: Action<T>,
        after: &Store<T>,
        moved: &DVec,
    ) -> bool {
        if self.unique(handle) {
            &&& moved.cell() == handle.cell()
            &&& after.handles() == self.handles()
            &&& after@ == reclaimed(
                edited(self@, handle.cell(), action),
                after.handles(),
                root_of(self@, handle.cell()),
                depth(self@, handle.cell()),
            )
        } else {
            &&& vacant(self@, moved.cell())
            &&& after.handles() == grown(
                self.handles().update(
                    handle.cell() as int,
                    (self.handles()[handle.cell() as int] - 1) as usize,
                ),
                moved.cell(),
                1,
            )
            &&& after@ == reclaimed(
                forked(self@, handle.cell(), action, moved.cell()),
                after.handles(),
                root_of(self@, handle.cell()),
                depth(self@, handle.cell()) + 1,
            )
        }
    }

    /// What an edit leaves of the arrays: the edited version stands for
    /// the edited array, at depth 0. Where the edit is not made in place,
    /// every other handle stands for the array it stood for. Where it is
    /// made in place, that holds of the handles of other families, and of
    /// all other handles if the edited version was the root.
    pub open spec fn edit_kept(
        &self,
        handle: &DVec,
        action: Action<T>,
        after: &Store<T>,
        moved: &DVec,
    ) -> bool {
        &&& after.has(moved)
        &&& after.value(moved) == action.effect(self.value(handle))
        &&& after.depth(moved) == 0
        &&& !self.unique(handle) ==> self.kept_in(after)
        &&& self.unique(handle) ==> self.kept_elsewhere_in(handle.cell(), after)
        &&& self.unique(handle) && self.depth(handle) == 0 ==> self.kept_but_in(handle.cell(), after)
    }
}

impl DVec {
    /// Makes `action` to this version's array: in place where this cell is
    /// unique, otherwise in a new cell that becomes the root and that this
    /// handle then names.
    fn mutate<T>(&mut self, store: &mut Store<T>, action: Action<T>)
        requires
            old(store).wf(),
            old(store).has(old(self)),
            action.applies(old(store).value(old(self))),
            action !is Pop,
        ensures
            final(store).wf(),
            old(store).mutated(old(self), action, final(store), final(self)),
            old(store).edit_kept(old(self), action, final(store), final(self)),
    {
        let ghost before = store@;
        let ghost c = self.cell as nat;
        let ghost d = depth(before, c);
        proof {
            store.lemma_handles();
            assert(is_version(before, c));
            lemma_rebased_len(before, c, d);
            lemma_rebased_cells(before, c, d, c);
            assert(store.links@[c as int] == inbound(before, c));
        }
        if store.is_unique(self) {
            let (mut data, first) = self.extract_data(store, Ghost(d));
            let ghost emptied = store@;
            let _ = action.enact(&mut data);
            proof {
                assert(emptied[c as int] == slot_of(store.cells@[c as int]));
            }
            store.cells[self.cell].put(DVecState::Root(data));
            let ghost turned = store@;
            proof {
                assert(turned =~= emptied.update(c as int, Slot::Root(data@)));
                assert(turned =~= edited(before, c, action));
                assert forall|t: nat| t < store.cells@.len() implies #[trigger] store.links@[t as int]
                    == inbound(turned, t) by {
                    lemma_links_update(emptied, c, Slot::Root(data@), t, emptied.len());
                }
                law_edit_in_place(before, c, action);
                lemma_old_root_after_edit(before, c, action);
            }
            let old_root = DVec { cell: first };
            old_root.reclaim(store, Ghost(d));
            proof {
                old(store).lemma_settled(turned, store, first as nat, d);
                assert forall|x: nat|
                    x < before.len() && is_version(before, x) && !same_family(before, x, c)
                        implies #[trigger] value(turned, x) == value(before, x) by {
                    law_edit_elsewhere(before, c, action, x);
                }
            }
        } else {
            let root = DVec::new_placeholder(store);
            let ghost r = root.cell as nat;
            let ghost added = store@;
            proof {
                lemma_grown_frame(before, r, Slot::Empty, c, d);
                assert(c != r);
            }
            let (data, first) = self.make_diff(store, &root, action, Ghost(d));
            let ghost linked = store@;
            proof {
                assert(linked[r as int] == slot_of(store.cells@[r as int]));
            }
            store.cells[root.cell].put(DVecState::Root(data));
            proof {
                let after = store@;
                assert(after =~= linked.update(r as int, Slot::Root(data@)));
                assert(after =~= forked(before, c, action, r));
                assert forall|t: nat| t < store.cells@.len() implies #[trigger] store.links@[t as int]
                    == inbound(after, t) by {
                    lemma_links_update(linked, r, Slot::Root(data@), t, linked.len());
                }
            }
            let handles = store.handles[self.cell];
            store.handles[self.cell] = handles - 1;
            let ghost turned = store@;
            proof {
                assert(turned =~= forked(before, c, action, r));
                assert(store.handles() =~= grown(
                    old(store).handles().update(
                        c as int,
                        (old(store).handles()[c as int] - 1) as usize,
                    ),
                    r,
                    1,
                ));
                law_fork_keeps_versions(before, c, action, r);
                lemma_old_root_after_fork(before, c, action, r);
            }
            let old_root = DVec { cell: first };
            old_root.reclaim(store, Ghost((d + 1) as nat));
            proof {
                old(store).lemma_settled(turned, store, first as nat, (d + 1) as nat);
            }
            *self = root;
        }
    }

    /// Appends `value` to this version's array.
    pub fn push<T>(&mut self, store: &mut Store<T>, value: T)
        requires
            old(store).wf(),
            old(store).has(old(self)),
        ensures
            final(store).wf(),
            old(store).mutated(old(self), Action::Push(value), final(store), final(self)),
            old(store).edit_kept(old(self), Action::Push(value), final(store), final(self)),
            final(store).value(final(self)) == old(store).value(old(self)).push(value),
    {
        self.mutate(store, Action::Push(value));
    }

    /// Replaces the element at `index` of this version's array by `element`.
    pub fn set<T>(&mut self, store: &mut Store<T>, index: usize, element: T)
        requires
            old(store).wf(),
            old(store).has(old(self)),
            index < old(store).value(old(self)).len(),
        ensures
            final(store).wf(),
            old(store).mutated(
                old(self),
                Action::Replace(index, element),
                final(store),
                final(self),
            ),
            old(store).edit_kept(
                old(self),
                Action::Replace(index, element),
                final(store),
                final(self),
            ),
            final(store).value(final(self)) == old(store).value(old(self)).update(
                index as int,
                element,
            ),
    {
        self.mutate(store, Action::Replace(index, element));
    }
}

} // verus!
