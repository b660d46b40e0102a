//! Persistent indexed sequences, in two designs.
//!
//! [`DVec`] is a bit-partitioned trie of fan-out 32 with a tail buffer; copies
//! share every subtree that neither side has written to.
//!
//! [`vec::DVec`] is a version in a family of versions that share one array:
//! the version read last holds it, the others hold edits that lead back to
//! their own.

pub mod cell;
pub mod compare;
pub mod laws;
pub mod radix;
pub mod vec;

use crate::radix::{
    capacity, child_span, lemma_capacity, lemma_level_shift_small, lemma_local_small,
    lemma_slot, level_shift, local, slot, BITS_PER_LEVEL, BRANCH_FACTOR,
};
use std::sync::Arc;
use vstd::bits::lemma_usize_shr_is_div;
use vstd::prelude::*;

verus! {

/// Bit offset at which an index selects the child of a node: five times the
/// node's height above the leaves.
#[derive(Copy, Clone, Debug, PartialEq, Eq, PartialOrd, Ord)]
pub struct Shift(pub usize);

/// Position of an element, counted from the start of the sequence.
#[derive(Copy, Clone, Debug, PartialEq, Eq, PartialOrd, Ord)]
pub struct Index(pub usize);

impl Index {
    /// The child that this index selects in a branch at `shift`.
    pub fn child(self, shift: Shift) -> (r: usize)
        requires
            shift.0 < usize::BITS,
        ensures
            r == slot(self.0 as int, shift.0 as nat),
            r < BRANCH_FACTOR,
    {
        let high: usize = self.0 >> shift.0;
        proof {
            lemma_usize_shr_is_div(self.0, shift.0);
            assert(high & 31 == high % 32) by (bit_vector);
        }
        high & (BRANCH_FACTOR - 1)
    }

    /// The position that this index selects within its leaf.
    pub fn leaf_child(self) -> (r: usize)
        ensures
            r == self.0 % 32,
    {
        let i: usize = self.0;
        proof {
            assert(i & 31 == i % 32) by (bit_vector);
        }
        i & (BRANCH_FACTOR - 1)
    }
}

impl Shift {
    /// The shift one level further down.
    pub fn dec(self) -> (r: Shift)
        requires
            self.0 >= BITS_PER_LEVEL,
        ensures
            r.0 == self.0 - BITS_PER_LEVEL,
    {
        Shift(self.0 - BITS_PER_LEVEL)
    }

    /// The number of elements that a full subtree holds whose root has this
    /// shift.
    pub fn capacity(self) -> (r: usize)
        requires
            level_shift(self.0 as nat),
        ensures
            r == capacity(self.0 as nat),
    {
        proof {
            lemma_level_shift_small(self.0 as nat);
            lemma_capacity(self.0 as nat);
            vstd::bits::lemma_usize_shl_is_mul(BRANCH_FACTOR, self.0);
            vstd::arithmetic::power2::lemma_pow2_adds(5, self.0 as nat);
            vstd::arithmetic::power2::lemma2_to64();
        }
        BRANCH_FACTOR << self.0
    }

    /// The shift one level further up.
    pub fn inc(self) -> (r: Shift)
        requires
            self.0 + BITS_PER_LEVEL <= usize::MAX,
        ensures
            r.0 == self.0 + BITS_PER_LEVEL,
    {
        Shift(self.0 + BITS_PER_LEVEL)
    }
}

/// A node of the trie: a branch of up to 32 shared children, or a leaf of 32
/// elements.
#[derive(Debug, PartialEq, Eq, PartialOrd, Ord)]
pub enum Node<T> {
    Branch { children: [Option<Arc<Node<T>>>; 32] },
    Leaf { elements: Vec<T> },
}

impl<T> Node<T> {
    /// The path that index `i` takes from this node, at `shift`, ends in a
    /// full leaf.
    pub open spec fn has(self, shift: nat, i: int) -> bool
        decreases shift,
    {
        match self {
            Node::Leaf { elements } => shift == 0 && elements@.len() == 32,
            Node::Branch { children } => shift >= 5 && match children@[slot(i, shift)] {
                Some(c) => (*c).has((shift - 5) as nat, i),
                None => false,
            },
        }
    }

    /// The element that index `i` selects below this node, at `shift`.
    pub open spec fn at(self, shift: nat, i: int) -> T
        decreases shift,
    {
        match self {
            Node::Leaf { elements } => elements@[i % 32],
            Node::Branch { children } => if shift >= 5 {
                match children@[slot(i, shift)] {
                    Some(c) => (*c).at((shift - 5) as nat, i),
                    None => arbitrary(),
                }
            } else {
                arbitrary()
            },
        }
    }

    /// This node, at `shift`, holds exactly its first `len` positions, packed
    /// to the left: every leaf is full, a branch has children up to the one
    /// that holds the last position and none after it.
    pub open spec fn dense(self, shift: nat, len: nat) -> bool
        decreases shift,
    {
        match self {
            Node::Leaf { elements } => shift == 0 && elements@.len() == 32,
            Node::Branch { children } => {
                &&& shift >= 5
                &&& len <= capacity(shift)
                &&& forall|k: int|
                    0 <= k < 32 ==> if k * child_span(shift) < len {
                        match #[trigger] children@[k] {
                            Some(c) => (*c).dense(
                                (shift - 5) as nat,
                                vstd::math::min(len - k * child_span(shift), child_span(shift) as int) as nat,
                            ),
                            None => false,
                        }
                    } else {
                        children@[k] is None
                    }
            },
        }
    }
}

impl<T> Node<T> {
    /// A dense node has a path for every position it holds.
    pub proof fn lemma_dense_has(&self, shift: nat, len: nat, i: int)
        requires
            self.dense(shift, len),
            0 <= i,
            local(i, shift) < len,
        ensures
            self.has(shift, i),
        decreases shift,
    {
        match self {
            Node::Leaf { elements } => {},
            Node::Branch { children } => {
                lemma_slot(i, shift);
                lemma_capacity(shift);
                let k = slot(i, shift);
                let span = child_span(shift) as int;
                assert(local(i, (shift - 5) as nat) == local(i, shift) - k * span);
                let c = children@[k]->0;
                let sub = vstd::math::min(len - k * span, span) as nat;
                c.lemma_dense_has((shift - 5) as nat, sub, i);
            },
        }
    }

    /// Returns the element at `index`, reached from this node at `shift`.
    pub fn get(&self, shift: Shift, index: Index) -> (r: &T)
        requires
            self.has(shift.0 as nat, index.0 as int),
            level_shift(shift.0 as nat),
        ensures
            *r == self.at(shift.0 as nat, index.0 as int),
    {
        let mut p = self;
        let mut level = shift;
        loop
            invariant
                p.has(level.0 as nat, index.0 as int),
                level_shift(level.0 as nat),
                p.at(level.0 as nat, index.0 as int) == self.at(shift.0 as nat, index.0 as int),
            decreases level.0,
        {
            match p {
                Node::Branch { children } => {
                    proof {
                        lemma_level_shift_small(level.0 as nat);
                        lemma_capacity(level.0 as nat);
                    }
                    let child = index.child(level);
                    match &children[child] {
                        Some(c) => {
                            p = &**c;
                        },
                        None => {
                            proof {
                                assert(false);
                            }
                        },
                    }
                    level = level.dec();
                },
                Node::Leaf { elements } => {
                    let child = index.leaf_child();
                    return &elements[child];
                },
            }
        }
    }
}

/// What `Node::validate` can find wrong with a node.
#[derive(Copy, Clone, Debug, PartialEq, Eq)]
pub enum Defect {
    /// A branch stands where the shift says a leaf is.
    BranchAtLeafLevel,
    /// A leaf stands where the shift, given here, says a branch is.
    LeafAboveLeafLevel { shift: usize },
    /// A leaf holds `len` elements instead of 32.
    ShortLeaf { len: usize },
    /// The child in slot `child` is absent although positions below it are
    /// held.
    MissingChild { child: usize },
    /// The node is to hold more positions than all its children can.
    Overfull,
    /// The child in slot `child` is present although no position below it
    /// is held.
    ExtraChild { child: usize },
}

impl<T> Node<T> {
    /// The first defect that a walk from left to right finds in this node,
    /// taken to hold `len` positions at `shift`, with the slots that lead to
    /// the node at fault; `None` where there is none.
    pub open spec fn defect(&self, shift: nat, len: nat) -> Option<(Seq<usize>, Defect)>
        decreases shift, 33nat,
    {
        match self {
            Node::Leaf { elements } => if shift != 0 {
                Some((Seq::empty(), Defect::LeafAboveLeafLevel { shift: shift as usize }))
            } else if elements@.len() != 32 {
                Some((Seq::empty(), Defect::ShortLeaf { len: elements@.len() as usize }))
            } else {
                None
            },
            Node::Branch { children } => if shift < 5 {
                Some((Seq::empty(), Defect::BranchAtLeafLevel))
            } else {
                Self::defect_from(children@, shift, len, 0)
            },
        }
    }

    /// The first defect among the children from slot `k` on.
    pub open spec fn defect_from(
        children: Seq<Option<Arc<Node<T>>>>,
        shift: nat,
        len: nat,
        k: nat,
    ) -> Option<(Seq<usize>, Defect)>
        decreases shift, 32 - k,
    {
        if shift < 5 {
            None
        } else if k >= 32 {
            if k * child_span(shift) < len {
                Some((Seq::empty(), Defect::Overfull))
            } else {
                None
            }
        } else if k * child_span(shift) < len {
            match children[k as int] {
                None => Some((Seq::empty(), Defect::MissingChild { child: k as usize })),
                Some(c) => match c.defect(
                    (shift - 5) as nat,
                    vstd::math::min(len - k * child_span(shift), child_span(shift) as int) as nat,
                ) {
                    Some((route, d)) => Some((seq![k as usize] + route, d)),
                    None => Self::defect_from(children, shift, len, k + 1),
                },
            }
        } else {
            match children[k as int] {
                Some(_) => Some((Seq::empty(), Defect::ExtraChild { child: k as usize })),
                None => Self::defect_from(children, shift, len, k + 1),
            }
        }
    }

    /// The children from slot `k` on are as a dense branch has them.
    spec fn dense_from(
        children: Seq<Option<Arc<Node<T>>>>,
        shift: nat,
        len: nat,
        k: nat,
    ) -> bool {
        &&& len <= capacity(shift)
        &&& forall|j: int|
            k <= j < 32 ==> if j * child_span(shift) < len {
                match #[trigger] children[j] {
                    Some(c) => (*c).dense(
                        (shift - 5) as nat,
                        vstd::math::min(len - j * child_span(shift), child_span(shift) as int) as nat,
                    ),
                    None => false,
                }
            } else {
                children[j] is None
            }
    }

    /// A node is dense exactly when the walk finds no defect in it.
    pub proof fn lemma_defect_free(&self, shift: nat, len: nat)
        ensures
            self.defect(shift, len) is None <==> self.dense(shift, len),
        decreases shift, 33nat,
    {
        match self {
            Node::Leaf { elements } => {},
            Node::Branch { children } => {
                if shift >= 5 {
                    Self::lemma_defect_free_from(children@, shift, len, 0);
                }
            },
        }
    }

    /// From any slot on, the children are as a dense branch has them exactly
    /// when the walk finds no defect among them.
    proof fn lemma_defect_free_from(
        children: Seq<Option<Arc<Node<T>>>>,
        shift: nat,
        len: nat,
        k: nat,
    )
        requires
            shift >= 5,
            k <= 32,
            children.len() == 32,
        ensures
            Self::defect_from(children, shift, len, k) is None <==> Self::dense_from(
                children,
                shift,
                len,
                k,
            ),
        decreases shift, 32 - k,
    {
        let span = child_span(shift) as int;
        lemma_capacity(shift);
        if k >= 32 {
            assert(32 * span == capacity(shift));
        } else {
            Self::lemma_defect_free_from(children, shift, len, k + 1);
            let sub = vstd::math::min(len - k * span, span) as nat;
            if children[k as int] is Some {
                children[k as int]->0.lemma_defect_free((shift - 5) as nat, sub);
            }
            if Self::dense_from(children, shift, len, k) {
                assert(Self::dense_from(children, shift, len, k + 1));
            }
        }
    }
}

impl<T> Node<T> {
    /// Checks that this node, at `shift`, is dense with `len` positions, by
    /// a walk from left to right that stops at the first defect. While the
    /// walk is below a child, `path` holds the slots that lead to it; after
    /// a defect it still does.
    #[verifier::loop_isolation(false)]
    pub fn validate(&self, path: &mut Vec<usize>, shift: Shift, len: Index) -> (r: Result<
        (),
        Defect,
    >)
        requires
            level_shift(shift.0 as nat),
        ensures
            r is Ok <==> self.dense(shift.0 as nat, len.0 as nat),
            match self.defect(shift.0 as nat, len.0 as nat) {
                None => r is Ok && final(path)@ == old(path)@,
                Some((route, defect)) => r == Err::<(), Defect>(defect) && final(path)@ == old(
                    path,
                )@ + route,
            },
        decreases shift.0,
    {
        let ghost s = shift.0 as nat;
        let ghost n = len.0 as nat;
        let ghost entry = path@;
        proof {
            self.lemma_defect_free(s, n);
            lemma_capacity(s);
            lemma_level_shift_small(s);
            assert(entry + Seq::<usize>::empty() =~= entry);
        }
        match self {
            Node::Branch { children } => {
                if shift.0 == 0 {
                    return Err(Defect::BranchAtLeafLevel);
                }
                let max_in_child = shift.dec().capacity();
                let mut k: usize = 0;
                let mut walked: usize = 0;
                while walked < len.0
                    invariant
                        k <= 32,
                        walked == vstd::math::min(k * max_in_child, len.0 as int),
                        path@ == entry,
                        self.defect(s, n) == Self::defect_from(children@, s, n, k as nat),
                    decreases 32 - k,
                {
                    if k == BRANCH_FACTOR {
                        return Err(Defect::Overfull);
                    }
                    match &children[k] {
                        Some(c) => {
                            path.push(k);
                            let remaining = len.0 - walked;
                            let child_len = if remaining < max_in_child {
                                remaining
                            } else {
                                max_in_child
                            };
                            match c.validate(path, shift.dec(), Index(child_len)) {
                                Ok(()) => {},
                                Err(defect) => {
                                    proof {
                                        let found = c.defect((s - 5) as nat, child_len as nat)->0;
                                        let route = found.0;
                                        assert(path@ == entry + (seq![k] + route));
                                    }
                                    return Err(defect);
                                },
                            }
                            walked += child_len;
                            path.pop();
                            proof {
                                assert(path@ == entry);
                                assert((k + 1) * max_in_child == k * max_in_child + max_in_child)
                                    by (nonlinear_arith);
                            }
                        },
                        None => {
                            return Err(Defect::MissingChild { child: k });
                        },
                    }
                    k += 1;
                }
                while k < BRANCH_FACTOR
                    invariant
                        k <= 32,
                        k * max_in_child >= n,
                        path@ == entry,
                        self.defect(s, n) == Self::defect_from(children@, s, n, k as nat),
                    decreases 32 - k,
                {
                    if children[k].is_some() {
                        return Err(Defect::ExtraChild { child: k });
                    }
                    proof {
                        assert((k + 1) * max_in_child >= k * max_in_child) by (nonlinear_arith);
                    }
                    k += 1;
                }
                Ok(())
            },
            Node::Leaf { elements } => {
                if shift.0 != 0 {
                    return Err(Defect::LeafAboveLeafLevel { shift: shift.0 });
                }
                if elements.len() != BRANCH_FACTOR {
                    return Err(Defect::ShortLeaf { len: elements.len() });
                }
                Ok(())
            },
        }
    }
}

/// Calls `Arc::clone`: the new handle points to the same node, so the two are
/// equal as values.
#[verifier::external_body]
fn share<T>(node: &Arc<Node<T>>) -> (r: Arc<Node<T>>)
    ensures
        r == *node,
{
    Arc::clone(node)
}

/// Calls `Arc::make_mut`: hands out the node behind `this` for writing. When
/// other handles point to the same node, `this` is first made to point to a
/// copy that `Node::clone` produced, so the node handed out is the old one or
/// a clone of it; what is written to it is what `this` holds afterwards.
#[verifier::external_body]
fn unshare<T: Clone>(this: &mut Arc<Node<T>>) -> (node: &mut Node<T>)
    ensures
        cloned::<Node<T>>(**old(this), *node),
        **final(this) == *final(node),
{
    Arc::make_mut(this)
}

/// A branch without children.
fn no_children<T>() -> (r: [Option<Arc<Node<T>>>; 32])
    ensures
        forall|k: int| 0 <= k < 32 ==> r@[k] is None,
{
    [
        None, None, None, None, None, None, None, None,
        None, None, None, None, None, None, None, None,
        None, None, None, None, None, None, None, None,
        None, None, None, None, None, None, None, None,
    ]
}

impl<T: Clone> Clone for Node<T> {
    /// Copies one level: the copy of a branch shares every child with the
    /// source; the copy of a leaf holds a clone of each element.
    fn clone(&self) -> (res: Self)
        ensures
            self is Branch ==> res == *self,
            self matches Node::Leaf { elements } ==> {
                &&& res matches Node::Leaf { elements: copied }
                &&& copied@.len() == elements@.len()
                &&& forall|i: int| 0 <= i < elements@.len() ==> cloned::<T>(elements@[i], #[trigger] copied@[i])
            },
    {
        match self {
            Node::Branch { children } => {
                let mut copy = no_children();
                let mut k: usize = 0;
                while k < BRANCH_FACTOR
                    invariant
                        k <= 32,
                        forall|j: int| 0 <= j < k ==> copy@[j] == children@[j],
                    decreases 32 - k,
                {
                    copy[k] = match &children[k] {
                        Some(c) => Some(share(c)),
                        None => None,
                    };
                    k += 1;
                }
                assert(copy =~= *children);
                Node::Branch { children: copy }
            },
            Node::Leaf { elements } => Node::Leaf { elements: elements.clone() },
        }
    }
}

impl<T: Clone> Node<T> {
    /// A chain of branches, each with the next as its only child, that ends in
    /// a leaf holding `tail`; its root has shift `shift`.
    pub fn branch_ladder(shift: Shift, tail: Vec<T>) -> (r: Arc<Node<T>>)
        requires
            shift.0 % 5 == 0,
            tail@.len() == 32,
        ensures
            (*r).dense(shift.0 as nat, 32),
            forall|i: int|
                0 <= i && local(i, shift.0 as nat) < 32 ==> #[trigger] (*r).at(shift.0 as nat, i)
                    == tail@[i % 32],
        decreases shift.0,
    {
        if shift.0 > 0 {
            let mut children = no_children();
            let below = Node::branch_ladder(shift.dec(), tail);
            children[0] = Some(below);
            let r = Arc::new(Node::Branch { children });
            proof {
                let s = shift.0 as nat;
                lemma_capacity(s);
                assert forall|k: int| 0 <= k < 32 implies if k * child_span(s) < 32 {
                    match #[trigger] children@[k] {
                        Some(c) => (*c).dense(
                            (s - 5) as nat,
                            vstd::math::min(32 - k * child_span(s), child_span(s) as int) as nat,
                        ),
                        None => false,
                    }
                } else {
                    children@[k] is None
                } by {
                    if k >= 1 {
                        assert(k * child_span(s) >= 32) by (nonlinear_arith)
                            requires
                                k >= 1,
                                child_span(s) >= 32,
                        ;
                    }
                }
                assert forall|i: int| 0 <= i && local(i, s) < 32 implies #[trigger] (*r).at(s, i) == tail@[i % 32] by {
                    lemma_slot(i, s);
                    let k = slot(i, s);
                    if k >= 1 {
                        assert(k * child_span(s) >= 32) by (nonlinear_arith)
                            requires
                                k >= 1,
                                child_span(s) >= 32,
                        ;
                    }
                    assert(k == 0);
                    assert(local(i, (s - 5) as nat) < 32);
                    assert((*below).at((s - 5) as nat, i) == tail@[i % 32]);
                    assert(children@[0] == Some(below));
                }
            }
            r
        } else {
            Arc::new(Node::Leaf { elements: tail })
        }
    }
}

impl<T> Node<T> {
    /// A dense branch stays dense, and keeps what it held, when the child at
    /// its frontier takes one more full block.
    proof fn lemma_frontier_grown(
        before: &Node<T>,
        after: &Node<T>,
        shift: nat,
        index: int,
        tail: Seq<T>,
    )
        requires
            shift >= 5,
            level_shift(shift),
            0 <= index,
            index % 32 == 0,
            tail.len() == 32,
            before.dense(shift, local(index, shift) as nat),
            before is Branch,
            after is Branch,
            after->children@ == before->children@.update(
                slot(index, shift),
                after->children@[slot(index, shift)],
            ),
            after->children@[slot(index, shift)] matches Some(grown) && {
                &&& (*grown).dense((shift - 5) as nat, (local(index, (shift - 5) as nat) + 32) as nat)
                &&& before->children@[slot(index, shift)] matches Some(child) ==> forall|i: int|
                    0 <= i && local(i, (shift - 5) as nat) < local(index, (shift - 5) as nat)
                        ==> #[trigger] (*grown).at((shift - 5) as nat, i) == (*child).at(
                        (shift - 5) as nat,
                        i,
                    )
                &&& forall|i: int|
                    0 <= i && local(index, (shift - 5) as nat) <= local(i, (shift - 5) as nat)
                        < local(index, (shift - 5) as nat) + 32 ==> #[trigger] (*grown).at(
                        (shift - 5) as nat,
                        i,
                    ) == tail[i % 32]
            },
        ensures
            after.dense(shift, (local(index, shift) + 32) as nat),
            forall|i: int|
                0 <= i && local(i, shift) < local(index, shift) ==> #[trigger] after.at(shift, i)
                    == before.at(shift, i),
            forall|i: int|
                0 <= i && local(index, shift) <= local(i, shift) < local(index, shift) + 32
                    ==> #[trigger] after.at(shift, i) == tail[i % 32],
    {
        let span = child_span(shift) as int;
        let len = local(index, shift);
        let j = slot(index, shift);
        let sub = local(index, (shift - 5) as nat);
        let olds = before->children@;
        let news = after->children@;
        lemma_capacity(shift);
        lemma_slot(index, shift);
        lemma_slot(index, (shift - 5) as nat);
        assert(len == j * span + sub);
        assert(sub % 32 == 0 && span % 32 == 0 && sub < span);
        assert(sub + 32 <= span);
        assert((j + 1) * span == j * span + span) by (nonlinear_arith);
        assert(len + 32 <= capacity(shift)) by {
            assert((j + 1) * span <= 32 * span) by (nonlinear_arith)
                requires
                    j + 1 <= 32,
                    span > 0,
            ;
        }
        assert forall|k: int| 0 <= k < 32 implies if k * span < len + 32 {
            match #[trigger] news[k] {
                Some(c) => (*c).dense(
                    (shift - 5) as nat,
                    vstd::math::min(len + 32 - k * span, span) as nat,
                ),
                None => false,
            }
        } else {
            news[k] is None
        } by {
            if k < j {
                assert((k + 1) * span <= j * span) by (nonlinear_arith)
                    requires
                        k + 1 <= j,
                        span > 0,
                ;
                assert((k + 1) * span == k * span + span) by (nonlinear_arith);
                assert(olds[k] == news[k]);
            } else if k > j {
                assert((j + 1) * span <= k * span) by (nonlinear_arith)
                    requires
                        j + 1 <= k,
                        span > 0,
                ;
                assert(olds[k] == news[k]);
            }
        }
        assert forall|i: int| 0 <= i && local(i, shift) < len implies #[trigger] after.at(shift, i)
            == before.at(shift, i) by {
            lemma_slot(i, shift);
            let k = slot(i, shift);
            if k > j {
                assert((j + 1) * span <= k * span) by (nonlinear_arith)
                    requires
                        j + 1 <= k,
                        span > 0,
                ;
            }
            if k == j {
                assert(j * span < len);
                assert(olds[j] is Some);
                assert(local(i, (shift - 5) as nat) == local(i, shift) - j * span);
                assert((*news[j]->0).at((shift - 5) as nat, i) == (*olds[j]->0).at(
                    (shift - 5) as nat,
                    i,
                ));
            } else {
                assert(olds[k] == news[k]);
            }
        }
        assert forall|i: int| 0 <= i && len <= local(i, shift) < len + 32 implies #[trigger] after.at(
            shift,
            i,
        ) == tail[i % 32] by {
            lemma_slot(i, shift);
            let k = slot(i, shift);
            if k > j {
                assert((j + 1) * span <= k * span) by (nonlinear_arith)
                    requires
                        j + 1 <= k,
                        span > 0,
                ;
            }
            if k < j {
                assert((k + 1) * span <= j * span) by (nonlinear_arith)
                    requires
                        k + 1 <= j,
                        span > 0,
                ;
                assert((k + 1) * span == k * span + span) by (nonlinear_arith);
            }
            assert(k == j);
            assert(local(i, (shift - 5) as nat) == local(i, shift) - j * span);
            assert(after.at(shift, i) == (*news[j]->0).at((shift - 5) as nat, i));
        }
    }
}

impl<T> Node<T> {
    /// A full node and a ladder to one more leaf, under a new root one level
    /// up, make a dense node that holds what the two held.
    proof fn lemma_raised(first: &Node<T>, second: &Node<T>, raised: &Node<T>, shift: nat, tail: Seq<T>)
        requires
            level_shift((shift + 5) as nat),
            tail.len() == 32,
            first.dense(shift, capacity(shift)),
            second.dense(shift, 32),
            forall|i: int|
                0 <= i && local(i, shift) < 32 ==> #[trigger] second.at(shift, i) == tail[i % 32],
            raised is Branch,
            raised->children@[0] matches Some(c) && *c == *first,
            raised->children@[1] matches Some(c) && *c == *second,
            forall|k: int| 2 <= k < 32 ==> raised->children@[k] is None,
        ensures
            raised.dense((shift + 5) as nat, capacity(shift) + 32),
            forall|i: int|
                0 <= i < capacity(shift) ==> #[trigger] raised.at((shift + 5) as nat, i)
                    == first.at(shift, i),
            forall|i: int|
                capacity(shift) <= i < capacity(shift) + 32 ==> #[trigger] raised.at(
                    (shift + 5) as nat,
                    i,
                ) == tail[i - capacity(shift)],
    {
        let up = (shift + 5) as nat;
        let n = capacity(shift) as int;
        let kids = raised->children@;
        lemma_capacity(up);
        lemma_capacity(shift);
        assert(child_span(up) == n);
        assert(n >= 32 && n % 32 == 0);
        assert forall|k: int| 0 <= k < 32 implies if k * child_span(up) < n + 32 {
            match #[trigger] kids[k] {
                Some(c) => (*c).dense(
                    (up - 5) as nat,
                    vstd::math::min(n + 32 - k * child_span(up), child_span(up) as int) as nat,
                ),
                None => false,
            }
        } else {
            kids[k] is None
        } by {
            if k >= 2 {
                assert(k * n >= n + 32) by (nonlinear_arith)
                    requires
                        k >= 2,
                        n >= 32,
                ;
            } else if k == 1 {
                assert(1 * n == n);
            } else {
                assert(0 * n == 0);
            }
        }
        assert forall|i: int| 0 <= i < n + 32 implies #[trigger] raised.at(up, i) == (if i < n {
            first.at(shift, i)
        } else {
            tail[i - n]
        }) by {
            lemma_local_small(i, up);
            lemma_slot(i, up);
            let k = slot(i, up);
            assert(i == k * n + i % n);
            assert(k == (if i < n { 0int } else { 1int })) by (nonlinear_arith)
                requires
                    0 <= k,
                    i == k * n + i % n,
                    0 <= i % n < n,
                    i < n + 32,
                    n >= 32,
            ;
            assert(local(i, shift) == i % n);
            assert(raised.at(up, i) == (*kids[k]->0).at(shift, i));
            if i >= n {
                assert(i % 32 == i - n);
            }
        }
    }
}

impl<T> Node<T> {
    /// What `push_tail` states of offsets holds of positions, in a node that
    /// begins at position 0 and has room.
    proof fn lemma_grown_root(before: &Node<T>, after: &Node<T>, shift: nat, n: int, tail: Seq<T>)
        requires
            0 <= n,
            n % 32 == 0,
            n + 32 <= capacity(shift),
            forall|i: int|
                0 <= i && local(i, shift) < local(n, shift) ==> #[trigger] after.at(shift, i)
                    == before.at(shift, i),
            forall|i: int|
                0 <= i && local(n, shift) <= local(i, shift) < local(n, shift) + 32
                    ==> #[trigger] after.at(shift, i) == tail[i % 32],
        ensures
            forall|i: int| 0 <= i < n ==> #[trigger] after.at(shift, i) == before.at(shift, i),
            forall|i: int| n <= i < n + 32 ==> #[trigger] after.at(shift, i) == tail[i - n],
    {
        lemma_local_small(n, shift);
        assert forall|i: int| 0 <= i < n implies #[trigger] after.at(shift, i) == before.at(
            shift,
            i,
        ) by {
            lemma_local_small(i, shift);
        }
        assert forall|i: int| n <= i < n + 32 implies #[trigger] after.at(shift, i) == tail[i
            - n] by {
            lemma_local_small(i, shift);
        }
    }
}

impl<T: Clone> Node<T> {
    /// Adds the full block `tail` as the leaf that follows the positions this
    /// node holds; `index` is the position of the block's first element.
    /// Nodes on the way that other sequences share are copied first.
    pub fn push_tail(&mut self, shift: Shift, index: Index, tail: Vec<T>)
        requires
            shift.0 >= 5,
            level_shift(shift.0 as nat),
            index.0 % 32 == 0,
            old(self).dense(shift.0 as nat, local(index.0 as int, shift.0 as nat) as nat),
            tail@.len() == 32,
        ensures
            final(self).dense(shift.0 as nat, (local(index.0 as int, shift.0 as nat) + 32) as nat),
            forall|i: int|
                0 <= i && local(i, shift.0 as nat) < local(index.0 as int, shift.0 as nat)
                    ==> #[trigger] final(self).at(shift.0 as nat, i) == old(self).at(
                    shift.0 as nat,
                    i,
                ),
            forall|i: int|
                0 <= i && local(index.0 as int, shift.0 as nat) <= local(i, shift.0 as nat) < local(
                    index.0 as int,
                    shift.0 as nat,
                ) + 32 ==> #[trigger] final(self).at(shift.0 as nat, i) == tail@[i % 32],
        decreases shift.0,
    {
        let ghost s = shift.0 as nat;
        let ghost span = child_span(s) as int;
        let ghost len = local(index.0 as int, s);
        let ghost j = slot(index.0 as int, s);
        let ghost sub = local(index.0 as int, (s - 5) as nat);
        let ghost before = *self;
        proof {
            lemma_level_shift_small(s);
            lemma_capacity(s);
            lemma_slot(index.0 as int, s);
            assert(len == j * span + sub);
            assert(before->children@[j] is Some <==> sub > 0);
        }
        match self {
            Node::Leaf { .. } => {
                proof {
                    assert(false);
                }
            },
            Node::Branch { children } => {
                let child = index.child(shift);
                let below = shift.dec();
                if below.0 == 0 {
                    children[child] = Some(Arc::new(Node::Leaf { elements: tail }));
                } else {
                    match &mut children[child] {
                        Some(c) => {
                            assert(before->children@[j] == Some(*c));
                            assert((**c).dense((s - 5) as nat, sub as nat));
                            let ghost shared = *c;
                            let node = unshare(c);
                            assert(*node == *shared);
                            node.push_tail(below, index, tail);
                        },
                        None => {
                            children[child] = Some(Node::branch_ladder(below, tail));
                        },
                    }
                }
            },
        }
        proof {
            assert(self->children@ =~= before->children@.update(j, self->children@[j]));
            Self::lemma_frontier_grown(&before, &*self, s, index.0 as int, tail@);
        }
    }
}

impl<T: Clone> Node<T> {
    /// What writing through the path of `index` leaves of a node: its shape,
    /// every element outside the leaf that holds `index`, and of that leaf
    /// each other element or a clone of it.
    pub open spec fn kept_but(before: &Node<T>, after: &Node<T>, shift: nat, index: int) -> bool {
        &&& forall|len: nat| before.dense(shift, len) ==> #[trigger] after.dense(shift, len)
        &&& forall|i: int| 0 <= i && before.has(shift, i) ==> #[trigger] after.has(shift, i)
        &&& forall|i: int|
            0 <= i && local(i, shift) != local(index, shift) ==> {
                &&& cloned::<T>(before.at(shift, i), #[trigger] after.at(shift, i))
                &&& shift == 0 || local(i, shift) / 32 != local(index, shift) / 32 ==> after.at(
                    shift,
                    i,
                ) == before.at(shift, i)
            }
    }

    /// A copy made by `clone` has the shape of the source, and holds each
    /// element of the source or a clone of it.
    proof fn lemma_copy(before: &Node<T>, copy: &Node<T>, shift: nat)
        requires
            cloned::<Node<T>>(*before, *copy),
        ensures
            before is Branch ==> *copy == *before,
            forall|len: nat| before.dense(shift, len) ==> #[trigger] copy.dense(shift, len),
            forall|i: int|
                0 <= i && before.has(shift, i) ==> #[trigger] copy.has(shift, i) && cloned::<T>(
                    before.at(shift, i),
                    copy.at(shift, i),
                ),
    {
    }

    /// Writing below one child of a branch, after that child was unshared,
    /// keeps of the branch what it keeps of the child.
    proof fn lemma_written_below(
        before: &Node<T>,
        mid: &Node<T>,
        after: &Node<T>,
        shift: nat,
        index: int,
    )
        requires
            shift >= 5,
            level_shift(shift),
            0 <= index,
            before.has(shift, index),
            after is Branch,
            after->children@[slot(index, shift)] is Some,
            after->children@ == before->children@.update(
                slot(index, shift),
                after->children@[slot(index, shift)],
            ),
            cloned::<Node<T>>(*before->children@[slot(index, shift)]->0, *mid),
            Self::kept_but(
                mid,
                &*after->children@[slot(index, shift)]->0,
                (shift - 5) as nat,
                index,
            ),
        ensures
            Self::kept_but(before, after, shift, index),
            cloned::<T>(before.at(shift, index), mid.at((shift - 5) as nat, index)),
            shift >= 10 ==> before.at(shift, index) == mid.at((shift - 5) as nat, index),
            after.at(shift, index) == (*after->children@[slot(index, shift)]->0).at(
                (shift - 5) as nat,
                index,
            ),
    {
        let j = slot(index, shift);
        let span = child_span(shift) as int;
        let below = (shift - 5) as nat;
        let olds = before->children@;
        let news = after->children@;
        let c0 = olds[j]->0;
        let c1 = news[j]->0;
        lemma_capacity(shift);
        lemma_slot(index, shift);
        Self::lemma_copy(&*c0, mid, below);
        assert forall|len: nat| before.dense(shift, len) implies #[trigger] after.dense(
            shift,
            len,
        ) by {
            assert forall|k: int| 0 <= k < 32 implies if k * span < len {
                match #[trigger] news[k] {
                    Some(c) => (*c).dense(below, vstd::math::min(len - k * span, span) as nat),
                    None => false,
                }
            } else {
                news[k] is None
            } by {
                if k == j {
                    let sub = vstd::math::min(len - k * span, span) as nat;
                    if k * span < len {
                        assert((*c0).dense(below, sub));
                        assert(mid.dense(below, sub));
                        assert((*c1).dense(below, sub));
                    }
                } else {
                    assert(news[k] == olds[k]);
                }
            }
        }
        assert forall|i: int| 0 <= i && before.has(shift, i) implies #[trigger] after.has(
            shift,
            i,
        ) by {
            if slot(i, shift) == j {
                assert(mid.has(below, i));
                assert((*c1).has(below, i));
            } else {
                assert(news[slot(i, shift)] == olds[slot(i, shift)]);
            }
        }
        assert(mid.has(below, index));
        assert forall|i: int| 0 <= i && local(i, shift) != local(index, shift) implies {
            &&& cloned::<T>(before.at(shift, i), #[trigger] after.at(shift, i))
            &&& shift == 0 || local(i, shift) / 32 != local(index, shift) / 32 ==> after.at(shift, i)
                == before.at(shift, i)
        } by {
            lemma_slot(i, shift);
            let k = slot(i, shift);
            if k == j {
                assert(local(i, below) != local(index, below));
                assert(span % 32 == 0);
                assert(local(i, shift) / 32 != local(index, shift) / 32 ==> local(i, below) / 32
                    != local(index, below) / 32) by {
                    let q = span / 32;
                    assert(j * span == (j * q) * 32) by (nonlinear_arith)
                        requires
                            span == q * 32,
                    ;
                }
                assert((*c1).at(below, i) == after.at(shift, i));
                if below == 0 {
                    assert((*c0).has(0, i));
                    assert(mid.has(0, i));
                    assert((*c1).at(0, i) == mid.at(0, i));
                } else {
                    assert(*mid == *c0);
                }
            } else {
                assert(news[k] == olds[k]);
            }
        }
    }

    /// Hands out the element at `index`, reached from this node at `shift`,
    /// for writing. Nodes on the way that other sequences share are copied
    /// first.
    pub fn get_mut(&mut self, shift: Shift, index: Index) -> (r: &mut T)
        requires
            old(self).has(shift.0 as nat, index.0 as int),
            level_shift(shift.0 as nat),
        ensures
            cloned::<T>(old(self).at(shift.0 as nat, index.0 as int), *r),
            shift.0 == 0 ==> *r == old(self).at(shift.0 as nat, index.0 as int),
            final(self).at(shift.0 as nat, index.0 as int) == *final(r),
            Self::kept_but(old(self), final(self), shift.0 as nat, index.0 as int),
        decreases shift.0,
    {
        let ghost before = *self;
        let ghost after = *final(self);
        match self {
            Node::Branch { children } => {
                proof {
                    lemma_level_shift_small(shift.0 as nat);
                    lemma_capacity(shift.0 as nat);
                }
                let child = index.child(shift);
                match &mut children[child] {
                    Some(c) => {
                        let ghost shared = *c;
                        let node = unshare(c);
                        let ghost mid = *node;
                        proof {
                            Self::lemma_copy(&*shared, &mid, (shift.0 - 5) as nat);
                        }
                        let r = node.get_mut(shift.dec(), index);
                        proof {
                            assert(after->children@ =~= before->children@.update(
                                child as int,
                                after->children@[child as int],
                            ));
                            Self::lemma_written_below(
                                &before,
                                &mid,
                                &after,
                                shift.0 as nat,
                                index.0 as int,
                            );
                            assert(cloned::<T>(before.at(shift.0 as nat, index.0 as int), *r));
                        }
                        r
                    },
                    None => {
                        proof {
                            assert(false);
                        }
                        vstd::pervasive::unreached()
                    },
                }
            },
            Node::Leaf { elements } => {
                let child = index.leaf_child();
                let r = &mut elements[child];
                proof {
                    lemma_capacity(0);
                    assert(after->elements@ == before->elements@.update(child as int, *final(r)));
                    assert(Self::kept_but(&before, &after, 0, index.0 as int));
                }
                r
            },
        }
    }
}

/// A persistent vector: a trie of full leaves, and a tail of fewer than 32
/// elements that were pushed last.
#[derive(Debug, PartialEq, Eq, PartialOrd, Ord)]
pub struct DVec<T> {
    /// Number of elements in the trie, without the tail.
    root_len: Index,
    /// Shift of the root.
    shift: Shift,
    root: Option<Arc<Node<T>>>,
    tail: Vec<T>,
}

impl<T> View for DVec<T> {
    type V = Seq<T>;

    /// The elements in order: those of the trie, then the tail.
    closed spec fn view(&self) -> Seq<T> {
        Seq::new((self.root_len.0 + self.tail@.len()) as nat, |i: int| self.elem(i))
    }
}

impl<T> DVec<T> {
    /// The longest sequence that `push` accepts: one level further up must
    /// still have a capacity that fits in `usize`.
    pub open spec fn max_len() -> nat {
        (usize::MAX / 32) as nat
    }

    /// The element at position `i`.
    closed spec fn elem(&self, i: int) -> T {
        if i < self.root_len.0 {
            (*self.root->0).at(self.shift.0 as nat, i)
        } else {
            self.tail@[i - self.root_len.0]
        }
    }

    /// The trie holds exactly its first `n` positions, packed to the left,
    /// and is no deeper than `n` positions need.
    closed spec fn holds(&self, n: nat) -> bool {
        &&& n % 32 == 0
        &&& level_shift(self.shift.0 as nat)
        &&& match self.root {
            None => n == 0 && self.shift.0 == 0,
            Some(root) => {
                &&& 0 < n <= capacity(self.shift.0 as nat)
                &&& self.shift.0 > 0 ==> n > child_span(self.shift.0 as nat)
                &&& (*root).dense(self.shift.0 as nat, n)
            },
        }
    }

    /// The invariant of the vector: the tail is shorter than a leaf; the
    /// trie is left-dense with full leaves, holds a whole number of leaves,
    /// and has the least depth that addresses them.
    pub closed spec fn wf(&self) -> bool {
        &&& self.tail@.len() < 32
        &&& self.holds(self.root_len.0 as nat)
    }

    /// The root of the trie, where there is one.
    pub closed spec fn trie(&self) -> Option<Node<T>> {
        match self.root {
            Some(root) => Some(*root),
            None => None,
        }
    }

    /// The number of elements in the trie.
    pub closed spec fn trie_len(&self) -> nat {
        self.root_len.0 as nat
    }

    /// The shift of the root of the trie.
    pub closed spec fn trie_shift(&self) -> nat {
        self.shift.0 as nat
    }

    /// The elements pushed last, which are not in the trie yet.
    pub closed spec fn tail(&self) -> Seq<T> {
        self.tail@
    }

    /// What the invariant says: the tail is shorter than a leaf; the trie
    /// holds a whole number of full leaves, packed to the left, under a root
    /// that is no higher than they need; the elements of the trie come
    /// first, then those of the tail.
    pub proof fn law_left_dense(&self)
        requires
            self.wf(),
        ensures
            self.tail().len() < 32,
            self.trie_len() % 32 == 0,
            level_shift(self.trie_shift()),
            match self.trie() {
                None => self.trie_len() == 0 && self.trie_shift() == 0,
                Some(root) => {
                    &&& root.dense(self.trie_shift(), self.trie_len())
                    &&& 0 < self.trie_len() <= capacity(self.trie_shift())
                    &&& self.trie_shift() > 0 ==> self.trie_len() > child_span(self.trie_shift())
                },
            },
            self@.len() == self.trie_len() + self.tail().len(),
            forall|i: int|
                0 <= i < self.trie_len() ==> #[trigger] self@[i] == self.trie()->0.at(
                    self.trie_shift(),
                    i,
                ),
            forall|i: int|
                0 <= i < self.tail().len() ==> self@[self.trie_len() + i] == #[trigger] self.tail()[i],
    {
    }

    /// An empty vector, without a trie.
    pub fn new() -> (r: Self)
        ensures
            r.wf(),
            r@ == Seq::<T>::empty(),
            r.trie() is None,
    {
        let r = DVec {
            root_len: Index(0),
            shift: Shift(0),
            root: None,
            tail: Vec::with_capacity(BRANCH_FACTOR),
        };
        proof {
            lemma_capacity(0);
            assert(r@ =~= Seq::<T>::empty());
        }
        r
    }

    /// The number of elements.
    pub fn len(&self) -> (r: usize)
        requires
            self.wf(),
        ensures
            r == self@.len(),
    {
        self.root_len.0 + self.tail.len()
    }

    /// The element at `index`, or `None` past the end.
    pub fn get(&self, index: usize) -> (r: Option<&T>)
        requires
            self.wf(),
        ensures
            match r {
                Some(element) => index < self@.len() && *element == self@[index as int],
                None => index >= self@.len(),
            },
    {
        if index < self.root_len.0 {
            match &self.root {
                Some(root) => {
                    proof {
                        lemma_local_small(index as int, self.shift.0 as nat);
                        root.lemma_dense_has(
                            self.shift.0 as nat,
                            self.root_len.0 as nat,
                            index as int,
                        );
                    }
                    Some(root.get(self.shift, Index(index)))
                },
                None => None,
            }
        } else {
            let at = index - self.root_len.0;
            if at < self.tail.len() {
                Some(&self.tail[at])
            } else {
                None
            }
        }
    }
}

impl<T> DVec<T> {
    /// Walks the trie and checks that it is dense with the number of
    /// elements it is to hold; an empty vector has no trie to check. The
    /// invariant says that the trie is dense, so on a well-formed vector the
    /// walk finds no defect.
    pub fn validate(&self) -> (r: Result<(), Defect>)
        requires
            level_shift(self.trie_shift()),
        ensures
            r == match self.trie() {
                None => Ok::<(), Defect>(()),
                Some(root) => match root.defect(self.trie_shift(), self.trie_len()) {
                    None => Ok::<(), Defect>(()),
                    Some((_, defect)) => Err::<(), Defect>(defect),
                },
            },
            self.wf() ==> r is Ok,
    {
        match &self.root {
            Some(root) => {
                proof {
                    root.lemma_defect_free(self.shift.0 as nat, self.root_len.0 as nat);
                }
                let mut path = Vec::new();
                match root.validate(&mut path, self.shift, self.root_len) {
                    Ok(()) => Ok(()),
                    Err(defect) => Err(defect),
                }
            },
            None => Ok(()),
        }
    }
}

impl<T: Clone> DVec<T> {
    /// Hands out the element at `index` for writing, or `None` past the end.
    /// A leaf that other vectors share is copied first, so each of its other
    /// elements is afterwards the old one or a clone of it; elements of other
    /// leaves stay as they are. In the tail nothing is copied.
    pub fn get_mut(&mut self, index: usize) -> (r: Option<&mut T>)
        requires
            old(self).wf(),
        ensures
            final(self).wf(),
            final(self)@.len() == old(self)@.len(),
            final(self).trie_len() == old(self).trie_len(),
            index >= old(self).trie_len() ==> {
                &&& r matches Some(element) ==> *element == old(self)@[index as int]
                &&& forall|i: int|
                    0 <= i < old(self)@.len() && i != index ==> #[trigger] final(self)@[i] == old(
                        self,
                    )@[i]
            },
            match r {
                Some(element) => {
                    &&& index < old(self)@.len()
                    &&& cloned::<T>(old(self)@[index as int], *element)
                    &&& final(self)@[index as int] == *final(element)
                },
                None => index >= old(self)@.len(),
            },
            forall|i: int|
                0 <= i < old(self)@.len() && i != index ==> {
                    &&& cloned::<T>(old(self)@[i], #[trigger] final(self)@[i])
                    &&& i / 32 != index / 32 ==> final(self)@[i] == old(self)@[i]
                },
    {
        let ghost before = *self;
        let ghost after = *final(self);
        if index < self.root_len.0 {
            match &mut self.root {
                Some(root) => {
                    let ghost shared = *root;
                    let ghost s = self.shift.0 as nat;
                    let node = unshare(root);
                    let ghost mid = *node;
                    proof {
                        lemma_local_small(index as int, s);
                        shared.lemma_dense_has(s, self.root_len.0 as nat, index as int);
                        Node::lemma_copy(&*shared, &mid, s);
                    }
                    let r = node.get_mut(self.shift, Index(index));
                    proof {
                        let grown = *after.root->0;
                        assert(after.tail == before.tail);
                        assert(after.root_len == before.root_len);
                        assert(after.shift == before.shift);
                        assert(Node::kept_but(&mid, &grown, s, index as int));
                        assert(grown.dense(s, before.root_len.0 as nat));
                        assert forall|i: int| 0 <= i < before@.len() && i != index implies {
                            &&& cloned::<T>(before@[i], #[trigger] after@[i])
                            &&& i / 32 != index / 32 ==> after@[i] == before@[i]
                        } by {
                            if i < before.root_len.0 {
                                lemma_local_small(i, s);
                                shared.lemma_dense_has(s, self.root_len.0 as nat, i);
                                assert(mid.has(s, i));
                                assert(before@[i] == shared.at(s, i));
                                assert(after@[i] == grown.at(s, i));
                                lemma_capacity(s);
                                if s > 0 {
                                    assert(mid == *shared);
                                } else {
                                    assert(grown.at(s, i) == mid.at(s, i));
                                    assert(i / 32 == index / 32);
                                }
                                assert(cloned::<T>(before@[i], after@[i]));
                            } else {
                                assert(after@[i] == before@[i]);
                            }
                        }
                    }
                    Some(r)
                },
                None => None,
            }
        } else {
            let at = index - self.root_len.0;
            if at < self.tail.len() {
                Some(&mut self.tail[at])
            } else {
                None
            }
        }
    }

    /// Appends `element`.
    pub fn push(&mut self, element: T)
        requires
            old(self).wf(),
            old(self)@.len() < Self::max_len(),
        ensures
            final(self).wf(),
            final(self)@ == old(self)@.push(element),
    {
        let ghost before = *self;
        self.tail.push(element);
        if self.tail.len() == BRANCH_FACTOR {
            let mut tail = Vec::with_capacity(BRANCH_FACTOR);
            std::mem::swap(&mut self.tail, &mut tail);
            self.push_tail(tail);
            self.root_len.0 += BRANCH_FACTOR;
        }
        proof {
            assert(self@ =~= before@.push(element));
        }
    }

    /// Moves the full block `tail` into the trie, as the leaf that follows
    /// those it holds. Where the trie is full, a new root takes the old one
    /// as its first child and a ladder down to the new leaf as its second.
    fn push_tail(&mut self, tail: Vec<T>)
        requires
            old(self).holds(old(self).root_len.0 as nat),
            old(self).root_len.0 < Self::max_len(),
            tail@.len() == 32,
        ensures
            final(self).holds((old(self).root_len.0 + 32) as nat),
            final(self).root_len == old(self).root_len,
            final(self).tail == old(self).tail,
            forall|i: int|
                0 <= i < old(self).root_len.0 ==> #[trigger] (*final(self).root->0).at(
                    final(self).shift.0 as nat,
                    i,
                ) == (*old(self).root->0).at(old(self).shift.0 as nat, i),
            forall|i: int|
                old(self).root_len.0 <= i < old(self).root_len.0 + 32 ==> #[trigger] (*final(self).root->0).at(
                    final(self).shift.0 as nat,
                    i,
                ) == tail@[i - old(self).root_len.0],
    {
        let ghost s = self.shift.0 as nat;
        let ghost n = self.root_len.0 as int;
        let ghost before = *self;
        proof {
            lemma_capacity(s);
            lemma_level_shift_small(s);
        }
        match &mut self.root {
            Some(root) => {
                let room = self.shift.capacity();
                if self.root_len.0 + BRANCH_FACTOR <= room {
                    proof {
                        lemma_local_small(n, s);
                    }
                    let node = unshare(root);
                    node.push_tail(self.shift, self.root_len, tail);
                    proof {
                        Node::lemma_grown_root(&*before.root->0, &*self.root->0, s, n, tail@);
                    }
                } else {
                    let mut children = no_children();
                    children[0] = Some(share(root));
                    children[1] = Some(Node::branch_ladder(self.shift, tail));
                    *root = Arc::new(Node::Branch { children });
                    self.shift = self.shift.inc();
                    proof {
                        lemma_capacity((s + 5) as nat);
                        assert(n == capacity(s));
                        assert(capacity((s + 5) as nat) == 32 * n);
                        assert(level_shift((s + 5) as nat));
                        Node::lemma_raised(
                            &*before.root->0,
                            &*children@[1]->0,
                            &*self.root->0,
                            s,
                            tail@,
                        );
                        assert(self.holds((n + 32) as nat));
                    }
                }
            },
            None => {
                self.root = Some(Arc::new(Node::Leaf { elements: tail }));
                proof {
                    assert(self.holds(32));
                }
            },
        }
    }
}

impl<T: Clone> Clone for DVec<T> {
    /// A copy that shares the whole trie with the source and holds a clone
    /// of each element of the tail.
    fn clone(&self) -> (res: Self)
        ensures
            self.wf() ==> res.wf(),
            crate::laws::copy_of(self@, res@),
            res.trie_len() == self.trie_len(),
            forall|i: int| 0 <= i < self.trie_len() ==> #[trigger] res@[i] == self@[i],
    {
        let res = DVec {
            root_len: self.root_len,
            shift: self.shift,
            root: match &self.root {
                Some(root) => Some(share(root)),
                None => None,
            },
            tail: self.tail.clone(),
        };
        proof {
            assert forall|i: int| 0 <= i < self@.len() implies cloned::<T>(
                self@[i],
                #[trigger] res@[i],
            ) by {
                if i >= self.root_len.0 {
                    assert(cloned::<T>(
                        self.tail@[i - self.root_len.0],
                        res.tail@[i - self.root_len.0],
                    ));
                }
            }
        }
        res
    }
}

} // verus!
