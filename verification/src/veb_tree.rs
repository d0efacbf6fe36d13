//! The index tree: a static complete binary tree over the packed memory
//! array's slots, each node holding the greatest key present under it (or
//! none), stored in one array in van Emde Boas order.  It routes a key to
//! the slot position where it belongs, and is refreshed over the window
//! that the array reports after each update.

use vstd::prelude::*;

verus! {

use vstd::arithmetic::power2::pow2;
use vstd::arithmetic::power2::lemma_pow2_pos;
use vstd::arithmetic::power2::lemma_pow2_unfold;
use crate::slots::Slot;
use crate::slots::entries;
use crate::slots::sorted_entries;
use crate::slots::occupied;
use crate::slots::key_at;
use crate::slots::lemma_entries_concat;
use crate::slots::lemma_entries_singleton;
use crate::slots::lemma_entries_split3;
use crate::slots::lemma_sorted_concat;
use crate::slots::lemma_rank;
use crate::slots::lemma_entry_source;
use crate::layout::bit_len;
use crate::layout::lemma_bit_len;
use crate::layout::lemma_bit_len_unique;
use crate::layout::veb_position;
use crate::layout::lemma_veb_position_range;
use crate::layout::lemma_veb_position_injective;
use crate::layout::compute_node_id;
use crate::layout::pow2_exec;
use crate::layout::lemma_pow2_le;

/// One tree node: an internal node or a leaf, each carrying an optional
/// key.
#[derive(Clone, Copy)]
pub enum Node {
    Branch(Option<usize>),
    Leaf(Option<usize>),
}

pub open spec fn node_key(n: Node) -> Option<usize> {
    match n {
        Node::Branch(k) => k,
        Node::Leaf(k) => k,
    }
}

/// The greatest key in the slot window `[lo, hi)`, or none if the window
/// holds no pair: with sorted slots this is the key of the window's last
/// entry.
pub open spec fn span_key(s: Seq<Slot>, lo: int, hi: int) -> Option<usize> {
    let e = entries(s.subrange(lo, hi));
    if e.len() == 0 {
        None
    } else {
        Some(e.last().0)
    }
}

/// The depth of the node with breadth-first id `id`; the root id 1 has
/// depth 0.
pub open spec fn depth_of(id: int) -> int {
    bit_len(id as nat) - 1
}

pub struct VebTree {
    height: usize,
    nodes: Vec<Node>,
}

impl VebTree {
    pub closed spec fn spec_height(self) -> nat {
        self.height as nat
    }

    pub closed spec fn nodes_seq(self) -> Seq<Node> {
        self.nodes@
    }

    /// The node with breadth-first id `id`, read through the van Emde
    /// Boas position function.
    pub open spec fn node_at(self, id: int) -> Node {
        self.nodes_seq()[veb_position(id as nat, self.spec_height()) - 1]
    }

    /// The number of slots under one node at the depth of `id`.
    pub open spec fn span_width(self, id: int) -> int {
        pow2((self.spec_height() - 1 - depth_of(id)) as nat) as int
    }

    /// The first slot under node `id`.
    pub open spec fn span_lo(self, id: int) -> int {
        (id - pow2(depth_of(id) as nat)) * self.span_width(id)
    }

    /// One past the last slot under node `id`.
    pub open spec fn span_hi(self, id: int) -> int {
        self.span_lo(id) + self.span_width(id)
    }

    /// The array has a node for every id and the heights fit the machine.
    pub open spec fn shape_ok(self) -> bool {
        &&& 1 <= self.spec_height() <= 64
        &&& pow2(self.spec_height()) <= usize::MAX
        &&& self.nodes_seq().len() == pow2(self.spec_height()) - 1
    }

    /// Ids above the leaf row hold branches, the leaf row holds leaves.
    pub open spec fn structure_ok(self) -> bool {
        &&& self.shape_ok()
        &&& forall|id: int|
            1 <= id < pow2((self.spec_height() - 1) as nat) ==> (#[trigger] self.node_at(
                id,
            )) is Branch
        &&& forall|id: int|
            pow2((self.spec_height() - 1) as nat) <= id < pow2(self.spec_height())
                ==> (#[trigger] self.node_at(id)) is Leaf
    }

    /// The tree describes the slot sequence `s`: each node's key is the
    /// greatest key present in its span.
    pub open spec fn wf_for(self, s: Seq<Slot>) -> bool {
        &&& self.structure_ok()
        &&& s.len() == pow2((self.spec_height() - 1) as nat)
        &&& forall|id: int|
            1 <= id < pow2(self.spec_height()) ==> node_key(#[trigger] self.node_at(id))
                == span_key(s, self.span_lo(id), self.span_hi(id))
    }

    /// Every id's span is a well-placed window of the slot row.
    pub proof fn lemma_span(self, id: int)
        requires
            1 <= self.spec_height(),
            1 <= id < pow2(self.spec_height()),
        ensures
            0 <= depth_of(id) <= self.spec_height() - 1,
            pow2(depth_of(id) as nat) <= id < pow2((depth_of(id) + 1) as nat),
            self.span_width(id) >= 1,
            0 <= self.span_lo(id),
            self.span_lo(id) < self.span_hi(id),
            self.span_hi(id) <= pow2((self.spec_height() - 1) as nat),
            depth_of(id) == self.spec_height() - 1 ==> self.span_lo(id) == id - pow2(
                (self.spec_height() - 1) as nat,
            ) && self.span_width(id) == 1,
    {
        lemma_bit_len(id as nat);
        let d = depth_of(id);
        let h = self.spec_height() as int;
        if d > h - 1 {
            lemma_pow2_le(self.spec_height(), depth_of(id) as nat);
            assert(false);
        }
        let w = self.span_width(id);
        lemma_pow2_pos((self.spec_height() - 1 - depth_of(id)) as nat);
        assert(self.span_lo(id) >= 0) by (nonlinear_arith)
            requires
                id - pow2(depth_of(id) as nat) >= 0,
                w >= 1,
                self.span_lo(id) == (id - pow2(depth_of(id) as nat)) * w,
        ;
        let m = id - pow2(d as nat);
        assert(m + 1 <= pow2(d as nat)) by {
            lemma_pow2_unfold((d + 1) as nat);
        }
        assert((m + 1) * w <= pow2(d as nat) * w) by (nonlinear_arith)
            requires
                m + 1 <= pow2(d as nat),
                w >= 1,
        ;
        assert((m + 1) * w == m * w + w) by (nonlinear_arith);
        assert(pow2(d as nat) * w == pow2((self.spec_height() - 1) as nat)) by {
            vstd::arithmetic::power2::lemma_pow2_adds(
                d as nat,
                (self.spec_height() - 1 - d) as nat,
            );
        }
        if d == h - 1 {
            vstd::arithmetic::power2::lemma2_to64();
            assert(self.span_width(id) == 1);
            assert(m * 1 == m) by (nonlinear_arith);
        }
    }

    /// The two children of a branch split its span in half.
    pub proof fn lemma_child_spans(self, id: int)
        requires
            1 <= self.spec_height(),
            1 <= id < pow2((self.spec_height() - 1) as nat),
        ensures
            2 * id + 1 < pow2(self.spec_height()),
            depth_of(2 * id) == depth_of(id) + 1,
            depth_of(2 * id + 1) == depth_of(id) + 1,
            self.span_lo(2 * id) == self.span_lo(id),
            self.span_hi(2 * id) == self.span_lo(2 * id + 1),
            self.span_hi(2 * id + 1) == self.span_hi(id),
    {
        let h = self.spec_height() as int;
        lemma_bit_len(id as nat);
        let d = depth_of(id);
        if d > h - 2 {
            lemma_pow2_le((self.spec_height() - 1) as nat, depth_of(id) as nat);
            assert(false);
        }
        lemma_pow2_unfold((d + 1) as nat);
        lemma_pow2_unfold((d + 2) as nat);
        assert(pow2((d + 1) as nat) <= 2 * id && 2 * id + 1 < pow2((d + 2) as nat));
        lemma_bit_len_unique((2 * id) as nat, (d + 2) as nat);
        lemma_bit_len_unique((2 * id + 1) as nat, (d + 2) as nat);
        assert(2 * id + 1 < pow2(self.spec_height())) by {
            lemma_pow2_le((d + 2) as nat, self.spec_height());
        }
        let w = self.span_width(id);
        let wc = self.span_width(2 * id);
        assert(w == 2 * wc) by {
            lemma_pow2_unfold((h - 1 - d) as nat);
        }
        let m = id - pow2(d as nat);
        assert(self.span_lo(2 * id) == (2 * m) * wc);
        assert(self.span_lo(2 * id + 1) == (2 * m + 1) * wc);
        assert((2 * m) * wc == m * (2 * wc)) by (nonlinear_arith);
        assert((2 * m + 1) * wc == m * (2 * wc) + wc) by (nonlinear_arith);
    }

    /// The key over a window is the key over its right half when that is
    /// present, else the key over its left half.
    pub proof fn lemma_span_key_combine(s: Seq<Slot>, lo: int, mid: int, hi: int)
        requires
            0 <= lo <= mid <= hi <= s.len(),
        ensures
            span_key(s, lo, hi) == (if span_key(s, mid, hi) is Some {
                span_key(s, mid, hi)
            } else {
                span_key(s, lo, mid)
            }),
    {
        assert(s.subrange(lo, hi) =~= s.subrange(lo, mid) + s.subrange(mid, hi));
        lemma_entries_concat(s.subrange(lo, mid), s.subrange(mid, hi));
    }

    fn node_pos(&self, id: usize) -> (p: usize)
        requires
            self.shape_ok(),
            1 <= id < pow2(self.spec_height()),
        ensures
            p == veb_position(id as nat, self.spec_height()) - 1,
            p < self.nodes_seq().len(),
    {
        proof {
            lemma_veb_position_range(id as nat, self.spec_height());
        }
        compute_node_id(id, self.height) - 1
    }

    fn get_node(&self, id: usize) -> (n: Node)
        requires
            self.shape_ok(),
            1 <= id < pow2(self.spec_height()),
        ensures
            n == self.node_at(id as int),
    {
        let p = self.node_pos(id);
        self.nodes[p]
    }

    /// The key stored at breadth-first id `id`.
    pub fn get_node_key(&self, id: usize) -> (k: Option<usize>)
        requires
            self.shape_ok(),
            1 <= id < pow2(self.spec_height()),
        ensures
            k == node_key(self.node_at(id as int)),
    {
        match self.get_node(id) {
            Node::Branch(k) => k,
            Node::Leaf(k) => k,
        }
    }

    /// Writes node `id`; every other id keeps its node.
    fn set_node(&mut self, id: usize, n: Node)
        requires
            old(self).shape_ok(),
            1 <= id < pow2(old(self).spec_height()),
        ensures
            final(self).shape_ok(),
            final(self).spec_height() == old(self).spec_height(),
            final(self).node_at(id as int) == n,
            forall|other: int|
                1 <= other < pow2(old(self).spec_height()) && other != id
                    ==> #[trigger] final(self).node_at(other) == old(self).node_at(other),
    {
        let p = self.node_pos(id);
        self.nodes.set(p, n);
        proof {
            assert forall|other: int|
                1 <= other < pow2(old(self).spec_height()) && other != id implies self.node_at(
                other,
            ) == old(self).node_at(other) by {
                lemma_veb_position_injective(other as nat, id as nat, self.spec_height());
                lemma_veb_position_range(other as nat, self.spec_height());
            }
        }
    }

    pub fn height(&self) -> (h: usize)
        ensures
            h == self.spec_height(),
    {
        self.height
    }

    pub fn node_count(&self) -> (n: usize)
        ensures
            n == self.nodes_seq().len(),
    {
        self.nodes.len()
    }

    /// An all-empty tree of the given height.
    pub fn new(height: usize) -> (t: Self)
        requires
            1 <= height <= 64,
            pow2(height as nat) <= usize::MAX,
        ensures
            t.structure_ok(),
            t.spec_height() == height,
            forall|id: int|
                1 <= id < pow2(height as nat) ==> node_key(#[trigger] t.node_at(id)) is None,
    {
        proof {
            lemma_pow2_pos(height as nat);
            lemma_pow2_le((height - 1) as nat, height as nat);
        }
        let n_nodes = pow2_exec(height) - 1;
        let mut nodes: Vec<Node> = Vec::new();
        while nodes.len() < n_nodes
            invariant
                nodes@.len() <= n_nodes,
            decreases n_nodes - nodes@.len(),
        {
            nodes.push(Node::Leaf(None));
        }
        let first_leaf = pow2_exec(height - 1);
        proof {
            lemma_pow2_unfold(height as nat);
        }
        let mut t = VebTree { height, nodes };
        let mut id: usize = 1;
        while id < n_nodes + 1
            invariant
                t.shape_ok(),
                t.spec_height() == height,
                1 <= height <= 64,
                first_leaf == pow2((height - 1) as nat),
                n_nodes == pow2(height as nat) - 1,
                1 <= first_leaf,
                2 * first_leaf == n_nodes + 1,
                pow2(height as nat) <= usize::MAX,
                1 <= id <= n_nodes + 1,
                forall|i: int|
                    1 <= i < id && i < first_leaf ==> (#[trigger] t.node_at(i)) == Node::Branch(
                        None,
                    ),
                forall|i: int|
                    first_leaf <= i < id ==> (#[trigger] t.node_at(i)) == Node::Leaf(None),
            decreases n_nodes + 1 - id,
        {
            let ghost told = t;
            if id < first_leaf {
                t.set_node(id, Node::Branch(None));
            } else {
                t.set_node(id, Node::Leaf(None));
            }
            proof {
                assert forall|i: int|
                    1 <= i < id + 1 && i < first_leaf implies (#[trigger] t.node_at(i))
                    == Node::Branch(None) by {
                    if i != id {
                        assert(t.node_at(i) == told.node_at(i));
                    }
                }
                assert forall|i: int|
                    first_leaf <= i < id + 1 implies (#[trigger] t.node_at(i)) == Node::Leaf(
                    None,
                ) by {
                    if i != id {
                        assert(t.node_at(i) == told.node_at(i));
                    }
                }
            }
            id = id + 1;
        }
        t
    }
}

impl VebTree {
    /// A leaf's span is exactly its slot.
    pub proof fn lemma_leaf_span(self, i: int)
        requires
            1 <= self.spec_height(),
            0 <= i < pow2((self.spec_height() - 1) as nat),
        ensures
            depth_of(pow2((self.spec_height() - 1) as nat) + i) == self.spec_height() - 1,
            self.span_lo(pow2((self.spec_height() - 1) as nat) + i) == i,
            self.span_hi(pow2((self.spec_height() - 1) as nat) + i) == i + 1,
    {
        let fl = pow2((self.spec_height() - 1) as nat) as int;
        lemma_pow2_unfold(self.spec_height());
        lemma_pow2_pos((self.spec_height() - 1) as nat);
        lemma_bit_len_unique((fl + i) as nat, self.spec_height());
        self.lemma_span(fl + i);
    }

    /// A branch id lies strictly above the leaf depth.
    pub proof fn lemma_branch_depth(self, id: int)
        requires
            1 <= self.spec_height(),
            1 <= id < pow2((self.spec_height() - 1) as nat),
        ensures
            0 <= depth_of(id) <= self.spec_height() - 2,
    {
        lemma_bit_len(id as nat);
        if bit_len(id as nat) > self.spec_height() - 1 {
            lemma_pow2_le((self.spec_height() - 1) as nat, (bit_len(id as nat) - 1) as nat);
            assert(false);
        }
    }

    /// Recomputes the key of branch `id` from its two children, whose keys
    /// describe their spans of `s`.
    fn set_branch(&mut self, id: usize, Ghost(s): Ghost<Seq<Slot>>)
        requires
            old(self).structure_ok(),
            1 <= id < pow2((old(self).spec_height() - 1) as nat),
            s.len() == pow2((old(self).spec_height() - 1) as nat),
            node_key(old(self).node_at(2 * id as int)) == span_key(
                s,
                old(self).span_lo(2 * id as int),
                old(self).span_hi(2 * id as int),
            ),
            node_key(old(self).node_at(2 * id as int + 1)) == span_key(
                s,
                old(self).span_lo(2 * id as int + 1),
                old(self).span_hi(2 * id as int + 1),
            ),
        ensures
            final(self).structure_ok(),
            final(self).spec_height() == old(self).spec_height(),
            node_key(final(self).node_at(id as int)) == span_key(
                s,
                old(self).span_lo(id as int),
                old(self).span_hi(id as int),
            ),
            final(self).node_at(id as int) is Branch,
            forall|other: int|
                1 <= other < pow2(old(self).spec_height()) && other != id
                    ==> #[trigger] final(self).node_at(other) == old(self).node_at(other),
    {
        proof {
            self.lemma_child_spans(id as int);
            self.lemma_span(id as int);
            lemma_pow2_le((old(self).spec_height() - 1) as nat, old(self).spec_height());
        }
        let right = self.get_node_key(2 * id + 1);
        let k = if right.is_some() {
            right
        } else {
            self.get_node_key(2 * id)
        };
        let ghost before = *self;
        self.set_node(id, Node::Branch(k));
        proof {
            Self::lemma_span_key_combine(
                s,
                before.span_lo(id as int),
                before.span_hi(2 * id as int),
                before.span_hi(id as int),
            );
            assert forall|i: int|
                1 <= i < pow2((old(self).spec_height() - 1) as nat) implies (
            #[trigger] self.node_at(i)) is Branch by {
                if i != id {
                    assert(self.node_at(i) == old(self).node_at(i));
                }
            }
            assert forall|i: int|
                pow2((old(self).spec_height() - 1) as nat) <= i < pow2(
                    old(self).spec_height(),
                ) implies (#[trigger] self.node_at(i)) is Leaf by {
                assert(self.node_at(i) == old(self).node_at(i));
            }
        }
    }

    /// Re-derives the tree's keys over slots `[from, to)`: each touched
    /// leaf from its slot, then the ancestors of the touched range, one
    /// level at a time toward the root.  Nodes whose spans miss the range
    /// must already be right, and stay untouched.
    pub fn refresh(&mut self, slots: &Vec<Slot>, from: usize, to: usize)
        requires
            old(self).structure_ok(),
            slots@.len() == pow2((old(self).spec_height() - 1) as nat),
            from <= to <= slots@.len(),
            forall|i: int|
                0 <= i < slots@.len() && !(from <= i < to) ==> node_key(
                    #[trigger] old(self).node_at(
                        pow2((old(self).spec_height() - 1) as nat) + i,
                    ),
                ) == span_key(slots@, i, i + 1),
            forall|id: int|
                1 <= id < pow2((old(self).spec_height() - 1) as nat) && (old(self).span_hi(id)
                    <= from || to <= old(self).span_lo(id) || to <= from) ==> node_key(
                    #[trigger] old(self).node_at(id),
                ) == span_key(slots@, old(self).span_lo(id), old(self).span_hi(id)),
        ensures
            final(self).wf_for(slots@),
            final(self).spec_height() == old(self).spec_height(),
    {
        proof {
            lemma_pow2_le((old(self).spec_height() - 1) as nat, old(self).spec_height());
            lemma_pow2_unfold(old(self).spec_height());
            lemma_pow2_pos((old(self).spec_height() - 1) as nat);
        }
        let first_leaf = pow2_exec(self.height - 1);
        let ghost fl = first_leaf as int;
        let ghost h = old(self).spec_height();
        // refresh the touched leaves from their slots
        let mut i = from;
        while i < to
            invariant
                old(self).structure_ok(),
                self.structure_ok(),
                self.spec_height() == h,
                h == old(self).spec_height(),
                fl == first_leaf as int,
                first_leaf == pow2((h - 1) as nat),
                2 * first_leaf == pow2(h),
                slots@.len() == first_leaf,
                from <= i <= to <= slots@.len(),
                forall|id: int|
                    1 <= id < fl ==> #[trigger] self.node_at(id) == old(self).node_at(id),
                forall|m: int|
                    from <= m < i ==> node_key(#[trigger] self.node_at(fl + m)) == span_key(
                        slots@,
                        m,
                        m + 1,
                    ),
                forall|m: int|
                    0 <= m < fl && !(from <= m < i) ==> #[trigger] self.node_at(fl + m) == old(
                        self,
                    ).node_at(fl + m),
            decreases to - i,
        {
            let sl = slots[i];
            let k = match sl {
                Some((kk, _)) => Some(kk),
                None => None,
            };
            let ghost before = *self;
            self.set_node(first_leaf + i, Node::Leaf(k));
            proof {
                self.lemma_leaf_span(i as int);
                assert(slots@.subrange(i as int, i + 1) =~= seq![slots@[i as int]]);
                lemma_entries_singleton(slots@[i as int]);
                assert(node_key(self.node_at(fl + i)) == span_key(slots@, i as int, i + 1));
                assert forall|id: int|
                    1 <= id < fl implies #[trigger] self.node_at(id) == old(self).node_at(
                    id,
                ) by {
                    assert(self.node_at(id) == before.node_at(id));
                }
                assert forall|m: int|
                    0 <= m < fl && !(from <= m < i + 1) implies #[trigger] self.node_at(fl + m)
                    == old(self).node_at(fl + m) by {
                    assert(self.node_at(fl + m) == before.node_at(fl + m));
                }
                assert forall|id: int|
                    1 <= id < pow2((h - 1) as nat) implies (#[trigger] self.node_at(
                    id,
                )) is Branch by {
                    assert(self.node_at(id) == before.node_at(id));
                }
            }
            i = i + 1;
        }
        proof {
            // every leaf now matches its slot
            assert forall|m: int|
                0 <= m < fl implies node_key(#[trigger] self.node_at(fl + m)) == span_key(
                slots@,
                m,
                m + 1,
            ) by {
                if !(from <= m < to) {
                    assert(self.node_at(fl + m) == old(self).node_at(fl + m));
                }
            }
        }
        if from >= to {
            proof {
                assert forall|id: int|
                    1 <= id < pow2(h) implies node_key(#[trigger] self.node_at(id)) == span_key(
                    slots@,
                    self.span_lo(id),
                    self.span_hi(id),
                ) by {
                    if id >= fl {
                        self.lemma_leaf_span(id - fl);
                    } else {
                        assert(self.node_at(id) == old(self).node_at(id));
                    }
                }
            }
            return ;
        }
        // walk the ancestors of the touched range toward the root
        let mut a = first_leaf + from;
        let mut b = first_leaf + to - 1;
        proof {
            self.lemma_leaf_span(from as int);
            self.lemma_leaf_span(to - 1);
            assert forall|id: int| 1 <= id < fl implies depth_of(id) <= h - 2 by {
                self.lemma_branch_depth(id);
            }
        }
        while a > 1
            invariant
                old(self).structure_ok(),
                self.structure_ok(),
                self.spec_height() == h,
                h == old(self).spec_height(),
                fl == pow2((h - 1) as nat),
                2 * fl == pow2(h),
                slots@.len() == fl,
                from < to <= slots@.len(),
                forall|id2: int|
                    1 <= id2 < fl && (old(self).span_hi(id2) <= from || to <= old(self).span_lo(
                        id2,
                    ) || to <= from) ==> node_key(#[trigger] old(self).node_at(id2)) == span_key(
                        slots@,
                        old(self).span_lo(id2),
                        old(self).span_hi(id2),
                    ),
                1 <= a <= b,
                b < pow2(h),
                depth_of(a as int) == depth_of(b as int),
                self.span_lo(a as int) <= from < self.span_hi(a as int),
                self.span_lo(b as int) <= to - 1 < self.span_hi(b as int),
                forall|m: int|
                    0 <= m < fl ==> node_key(#[trigger] self.node_at(fl + m)) == span_key(
                        slots@,
                        m,
                        m + 1,
                    ),
                forall|id: int|
                    1 <= id < fl && depth_of(id) >= depth_of(a as int) ==> node_key(
                        #[trigger] self.node_at(id),
                    ) == span_key(slots@, self.span_lo(id), self.span_hi(id)),
                forall|id: int|
                    1 <= id < fl && depth_of(id) < depth_of(a as int)
                        ==> #[trigger] self.node_at(id) == old(self).node_at(id),
            decreases a,
        {
            let ghost d = depth_of(a as int);
            let ghost olda = a as int;
            let ghost oldb = b as int;
            proof {
                assert(bit_len((a / 2) as nat) + 1 == bit_len(a as nat));
                assert(bit_len((b / 2) as nat) + 1 == bit_len(b as nat));
                self.lemma_span(a as int);
                self.lemma_span(b as int);
                self.lemma_child_spans((a / 2) as int);
                self.lemma_child_spans((b / 2) as int);
            }
            a = a / 2;
            b = b / 2;
            let ghost dd = depth_of(a as int);
            proof {
                // the parents' spans still straddle the range ends
                assert(olda == 2 * (a as int) || olda == 2 * (a as int) + 1);
                assert(oldb == 2 * (b as int) || oldb == 2 * (b as int) + 1);
                self.lemma_span(2 * (a as int));
                self.lemma_span(2 * (a as int) + 1);
                self.lemma_span(2 * (b as int));
                self.lemma_span(2 * (b as int) + 1);
                assert(self.span_lo(a as int) <= from && from < self.span_hi(a as int));
                assert(self.span_lo(b as int) <= to - 1 && to - 1 < self.span_hi(b as int));
            }
            let ghost tree0 = *self;
            let mut id = a;
            while id < b + 1
                invariant
                    old(self).structure_ok(),
                    self.structure_ok(),
                    self.spec_height() == h,
                    h == old(self).spec_height(),
                    fl == pow2((h - 1) as nat),
                    2 * fl == pow2(h),
                    slots@.len() == fl,
                    forall|id2: int|
                        1 <= id2 < fl && (old(self).span_hi(id2) <= from || to <= old(self).span_lo(
                            id2,
                        ) || to <= from) ==> node_key(#[trigger] old(self).node_at(id2)) == span_key(
                            slots@,
                            old(self).span_lo(id2),
                            old(self).span_hi(id2),
                        ),
                    1 <= a <= id <= b + 1,
                    b < fl,
                    dd == depth_of(a as int),
                    depth_of(b as int) == dd,
                    from < to,
                    self.span_lo(a as int) <= from < self.span_hi(a as int),
                    self.span_lo(b as int) <= to - 1 < self.span_hi(b as int),
                    forall|m: int|
                        0 <= m < fl ==> node_key(#[trigger] self.node_at(fl + m)) == span_key(
                            slots@,
                            m,
                            m + 1,
                        ),
                    forall|j: int|
                        1 <= j < fl && depth_of(j) > dd ==> node_key(
                            #[trigger] self.node_at(j),
                        ) == span_key(slots@, self.span_lo(j), self.span_hi(j)),
                    forall|j: int|
                        a <= j < id ==> node_key(#[trigger] self.node_at(j)) == span_key(
                            slots@,
                            self.span_lo(j),
                            self.span_hi(j),
                        ) && self.node_at(j) is Branch,
                    forall|j: int|
                        1 <= j < fl && depth_of(j) <= dd && !(a <= j < id)
                            ==> #[trigger] self.node_at(j) == old(self).node_at(j),
                decreases b + 1 - id,
            {
                proof {
                    self.lemma_span(id as int);
                    assert(depth_of(id as int) == dd) by {
                        lemma_bit_len(a as nat);
                        lemma_bit_len(b as nat);
                        lemma_bit_len_unique(id as nat, (dd + 1) as nat);
                    }
                    self.lemma_child_spans(id as int);
                    // both children already describe their spans
                    assert(node_key(self.node_at(2 * id as int)) == span_key(
                        slots@,
                        self.span_lo(2 * id as int),
                        self.span_hi(2 * id as int),
                    )) by {
                        if 2 * id as int >= fl {
                            self.lemma_leaf_span(2 * id as int - fl);
                        }
                    }
                    assert(node_key(self.node_at(2 * id as int + 1)) == span_key(
                        slots@,
                        self.span_lo(2 * id as int + 1),
                        self.span_hi(2 * id as int + 1),
                    )) by {
                        if 2 * id as int + 1 >= fl {
                            self.lemma_leaf_span(2 * id as int + 1 - fl);
                        }
                    }
                }
                let ghost before = *self;
                self.set_branch(id, Ghost(slots@));
                proof {
                    assert forall|m: int|
                        0 <= m < fl implies node_key(#[trigger] self.node_at(fl + m))
                        == span_key(slots@, m, m + 1) by {
                        assert(self.node_at(fl + m) == before.node_at(fl + m));
                    }
                    assert forall|j: int|
                        1 <= j < fl && depth_of(j) > dd implies node_key(
                        #[trigger] self.node_at(j),
                    ) == span_key(slots@, self.span_lo(j), self.span_hi(j)) by {
                        lemma_bit_len(j as nat);
                        lemma_bit_len(id as nat);
                        assert(j != id);
                        assert(self.node_at(j) == before.node_at(j));
                    }
                    assert forall|j: int|
                        1 <= j < fl && depth_of(j) <= dd && !(a <= j < id + 1)
                        implies #[trigger] self.node_at(j) == old(self).node_at(j) by {
                        assert(self.node_at(j) == before.node_at(j));
                    }
                }
                id = id + 1;
            }
            proof {
                // ids between the two range ancestors sit at their depth
                assert forall|j: int| a <= j <= b implies depth_of(j) == dd by {
                    lemma_bit_len(a as nat);
                    lemma_bit_len(b as nat);
                    lemma_bit_len_unique(j as nat, (dd + 1) as nat);
                }
                assert forall|j: int|
                    1 <= j < fl && depth_of(j) < dd implies #[trigger] self.node_at(j) == old(
                    self,
                ).node_at(j) by {}
                // the whole level now describes its spans: ids outside
                // [a, b] miss the touched range and kept their old keys
                assert forall|j: int|
                    1 <= j < fl && depth_of(j) >= dd implies node_key(
                    #[trigger] self.node_at(j),
                ) == span_key(slots@, self.span_lo(j), self.span_hi(j)) by {
                    if depth_of(j) == dd && !(a <= j <= b) {
                        self.lemma_span(j);
                        self.lemma_span(a as int);
                        self.lemma_span(b as int);
                        let w = self.span_width(j);
                        assert(self.span_width(a as int) == w);
                        assert(self.span_width(b as int) == w);
                        lemma_bit_len(j as nat);
                        lemma_bit_len(a as nat);
                        if j < a {
                            assert((j + 1 - pow2(dd as nat)) * w <= (a - pow2(dd as nat)) * w)
                                by (nonlinear_arith)
                                requires
                                    j + 1 <= a,
                                    w >= 1,
                            ;
                            assert((j + 1 - pow2(dd as nat)) * w == (j - pow2(dd as nat)) * w
                                + w) by (nonlinear_arith);
                            assert(self.span_hi(j) <= self.span_lo(a as int));
                            assert(self.node_at(j) == old(self).node_at(j));
                            assert(node_key(old(self).node_at(j)) == span_key(
                                slots@,
                                old(self).span_lo(j),
                                old(self).span_hi(j),
                            ));
                        } else {
                            assert((b + 1 - pow2(dd as nat)) * w <= (j - pow2(dd as nat)) * w)
                                by (nonlinear_arith)
                                requires
                                    b + 1 <= j,
                                    w >= 1,
                            ;
                            assert((b + 1 - pow2(dd as nat)) * w == (b - pow2(dd as nat)) * w
                                + w) by (nonlinear_arith);
                            assert(self.span_hi(b as int) <= self.span_lo(j));
                            assert(self.node_at(j) == old(self).node_at(j));
                            assert(node_key(old(self).node_at(j)) == span_key(
                                slots@,
                                old(self).span_lo(j),
                                old(self).span_hi(j),
                            ));
                        }
                    }
                }
            }
        }
        proof {
            // the root level is depth zero, so every branch is covered
            assert(depth_of(1int) == 0) by {
                vstd::arithmetic::power2::lemma2_to64();
                lemma_bit_len_unique(1nat, 1nat);
            }
            assert forall|id: int|
                1 <= id < pow2(h) implies node_key(#[trigger] self.node_at(id)) == span_key(
                slots@,
                self.span_lo(id),
                self.span_hi(id),
            ) by {
                if id >= fl {
                    self.lemma_leaf_span(id - fl);
                } else {
                    lemma_bit_len(id as nat);
                }
            }
        }
    }
}

/// With sorted slots, the span key of a window is its greatest present
/// key, and absent exactly when the window is all empty.
pub proof fn lemma_span_key_bounds(s: Seq<Slot>, lo: int, hi: int)
    requires
        sorted_entries(entries(s)),
        0 <= lo <= hi <= s.len(),
    ensures
        span_key(s, lo, hi) is None ==> forall|j: int| lo <= j < hi ==> s[j] is None,
        span_key(s, lo, hi) is Some ==> exists|j: int|
            lo <= j < hi && #[trigger] occupied(s, j) && key_at(s, j) == span_key(s, lo, hi)->0,
        forall|j: int|
            lo <= j < hi && #[trigger] occupied(s, j) ==> span_key(s, lo, hi) is Some && key_at(
                s,
                j,
            ) <= span_key(s, lo, hi)->0,
{
    let sub = s.subrange(lo, hi);
    let e = entries(sub);
    lemma_entries_split3(s, lo, hi);
    lemma_sorted_concat(
        entries(s.subrange(0, lo)) + e,
        entries(s.subrange(hi, s.len() as int)),
    );
    lemma_sorted_concat(entries(s.subrange(0, lo)), e);
    assert(sorted_entries(e));
    if e.len() == 0 {
        assert forall|j: int| lo <= j < hi implies s[j] is None by {
            if s[j] is Some {
                lemma_rank(sub, j - lo);
            }
        }
    } else {
        lemma_entry_source(sub, e.len() - 1);
        let j0 = choose|j0: int|
            occupied(sub, j0) && crate::slots::rank(sub, j0) == e.len() - 1 && sub[j0]->0 == e[
                e.len() - 1];
        assert(occupied(s, lo + j0) && key_at(s, lo + j0) == e.last().0);
        assert forall|j: int|
            lo <= j < hi && #[trigger] occupied(s, j) implies span_key(s, lo, hi) is Some
            && key_at(s, j) <= span_key(s, lo, hi)->0 by {
            lemma_rank(sub, j - lo);
            let p = crate::slots::rank(sub, j - lo);
            assert(e[p] == sub[j - lo]->0);
            if p < e.len() - 1 {
                assert(e[p].0 < e[e.len() - 1].0);
            }
        }
    }
}

impl VebTree {
    /// The slot position at which `key` belongs: every present key left of
    /// it is smaller, every present key at or right of it at least `key`,
    /// and if `key` is present at all it sits exactly there.
    pub fn find_index(&self, key: usize, Ghost(s): Ghost<Seq<Slot>>) -> (r: usize)
        requires
            self.wf_for(s),
            sorted_entries(entries(s)),
        ensures
            r <= s.len(),
            forall|j: int| #[trigger] occupied(s, j) && j < r ==> key_at(s, j) < key,
            forall|j: int| #[trigger] occupied(s, j) && j >= r ==> key_at(s, j) >= key,
            (exists|j: int| #[trigger] occupied(s, j) && key_at(s, j) == key) ==> r < s.len()
                && s[r as int] is Some && key_at(s, r as int) == key,
    {
        let ghost h = self.spec_height();
        proof {
            lemma_pow2_le((h - 1) as nat, h);
            lemma_pow2_unfold(h);
            vstd::arithmetic::power2::lemma2_to64();
            lemma_bit_len_unique(1nat, 1nat);
            self.lemma_span(1);
        }
        let first_leaf = pow2_exec(self.height - 1);
        let mut node_id: usize = 1;
        let mut d: usize = 0;
        while d < self.height - 1
            invariant
                self.wf_for(s),
                sorted_entries(entries(s)),
                h == self.spec_height(),
                first_leaf == pow2((h - 1) as nat),
                2 * first_leaf == pow2(h),
                0 <= d <= h - 1,
                depth_of(node_id as int) == d,
                1 <= node_id < pow2(h),
                forall|j: int|
                    #[trigger] occupied(s, j) && j < self.span_lo(node_id as int) ==> key_at(
                        s,
                        j,
                    ) < key,
                self.span_hi(node_id as int) == s.len() || (self.span_key_ge(
                    s,
                    node_id as int,
                    key,
                )),
            decreases h - 1 - d,
        {
            proof {
                self.lemma_span(node_id as int);
                assert(node_id < first_leaf) by {
                    lemma_pow2_le((d + 1) as nat, (h - 1) as nat);
                }
                self.lemma_child_spans(node_id as int);
                lemma_span_key_bounds(
                    s,
                    self.span_lo(2 * node_id as int),
                    self.span_hi(2 * node_id as int),
                );
                lemma_span_key_bounds(
                    s,
                    self.span_lo(node_id as int),
                    self.span_hi(node_id as int),
                );
                Self::lemma_span_key_combine(
                    s,
                    self.span_lo(node_id as int),
                    self.span_hi(2 * node_id as int),
                    self.span_hi(node_id as int),
                );
            }
            let left = self.get_node_key(2 * node_id);
            let go_right = match left {
                None => true,
                Some(k) => k < key,
            };
            if go_right {
                node_id = 2 * node_id + 1;
            } else {
                node_id = 2 * node_id;
            }
            d = d + 1;
        }
        proof {
            self.lemma_span(node_id as int);
            if (node_id as int) < first_leaf as int {
                lemma_bit_len(node_id as nat);
                lemma_pow2_le((depth_of(node_id as int) + 1) as nat, (h - 1) as nat);
                assert(false);
            }
            self.lemma_leaf_span(node_id - first_leaf);
            assert(s.subrange(node_id - first_leaf, node_id - first_leaf + 1) =~= seq![
                s[node_id - first_leaf],
            ]);
            lemma_entries_singleton(s[node_id - first_leaf]);
        }
        let lo = node_id - first_leaf;
        let leaf = self.get_node_key(node_id);
        let r = match leaf {
            Some(k) => if k < key {
                lo + 1
            } else {
                lo
            },
            None => lo,
        };
        proof {
            let loi = lo as int;
            if s[loi] is Some && key_at(s, loi) < key {
                // nothing at or beyond this slot reaches the key
                assert(self.span_hi(node_id as int) == s.len());
                assert(r == s.len());
                assert forall|j: int|
                    #[trigger] occupied(s, j) && key_at(s, j) == key implies false by {
                    assert(j < loi || j == loi);
                    if j < loi {
                        assert(key_at(s, j) < key);
                    }
                }
            } else if s[loi] is Some {
                // keys at or beyond this slot only grow, and an equal key
                // can only sit exactly here
                assert forall|j: int|
                    #[trigger] occupied(s, j) && j > loi implies key_at(s, loi) < key_at(
                    s,
                    j,
                ) by {
                    crate::slots::lemma_rank_monotone(s, loi, j);
                    lemma_rank(s, loi);
                    lemma_rank(s, j);
                    assert(entries(s.subrange(0, j)).len() <= crate::slots::rank(s, j));
                }
                assert forall|j: int|
                    #[trigger] occupied(s, j) && key_at(s, j) == key implies j == loi by {
                    if j < loi {
                        assert(key_at(s, j) < key);
                    }
                }
            } else {
                // the leaf is empty, so it is the last slot and the key is
                // absent
                assert(self.span_hi(node_id as int) == s.len());
                assert forall|j: int|
                    #[trigger] occupied(s, j) && key_at(s, j) == key implies false by {
                    if j < loi {
                        assert(key_at(s, j) < key);
                    }
                }
                assert forall|j: int|
                    #[trigger] occupied(s, j) && j >= r implies key_at(s, j) >= key by {
                    assert(j == loi);
                }
            }
        }
        r
    }

    /// The node's span key is present and at least `key`.
    pub open spec fn span_key_ge(self, s: Seq<Slot>, id: int, key: usize) -> bool {
        span_key(s, self.span_lo(id), self.span_hi(id)) is Some && span_key(
            s,
            self.span_lo(id),
            self.span_hi(id),
        )->0 >= key
    }

    /// Each node's key is the greatest key present among the slots of its
    /// span, or none when the span is all empty; in particular a leaf's
    /// key is its own slot's key.
    pub proof fn lemma_node_key_max(self, s: Seq<Slot>, id: int)
        requires
            self.wf_for(s),
            sorted_entries(entries(s)),
            1 <= id < pow2(self.spec_height()),
        ensures
            node_key(self.node_at(id)) is None ==> forall|j: int|
                self.span_lo(id) <= j < self.span_hi(id) ==> s[j] is None,
            node_key(self.node_at(id)) is Some ==> exists|j: int|
                self.span_lo(id) <= j < self.span_hi(id) && #[trigger] occupied(s, j) && key_at(
                    s,
                    j,
                ) == node_key(self.node_at(id))->0,
            forall|j: int|
                self.span_lo(id) <= j < self.span_hi(id) && #[trigger] occupied(s, j)
                    ==> node_key(self.node_at(id)) is Some && key_at(s, j) <= node_key(
                    self.node_at(id),
                )->0,
            depth_of(id) == self.spec_height() - 1 ==> node_key(self.node_at(id)) == (match s[
                id - pow2((self.spec_height() - 1) as nat)] {
                Some(kv) => Some(kv.0),
                None => None,
            }),
    {
        self.lemma_span(id);
        lemma_span_key_bounds(s, self.span_lo(id), self.span_hi(id));
        if depth_of(id) == self.spec_height() - 1 {
            let i = id - pow2((self.spec_height() - 1) as nat);
            assert(s.subrange(i, i + 1) =~= seq![s[i]]);
            lemma_entries_singleton(s[i]);
        }
    }

    /// Discards the tree and rebuilds it for the given slots.
    pub fn rebuild(&mut self, slots: &Vec<Slot>)
        requires
            exists|k: nat| slots@.len() == pow2(k),
            2 * slots@.len() <= usize::MAX,
        ensures
            final(self).wf_for(slots@),
    {
        let k = crate::layout::log2_of_pow2(slots.len());
        proof {
            crate::layout::lemma_pow2_above((k + 1) as nat);
            lemma_pow2_unfold((k + 1) as nat);
            if k + 1 > 64 {
                lemma_pow2_le(64, k as nat);
                vstd::arithmetic::power2::lemma2_to64_rest();
                assert(pow2(64) == 0x10000000000000000);
                assert(false);
            }
        }
        let mut fresh = VebTree::new(k + 1);
        proof {
            assert forall|i: int|
                0 <= i < slots@.len() && !(0 <= i < slots@.len()) implies node_key(
                #[trigger] fresh.node_at(pow2((fresh.spec_height() - 1) as nat) + i),
            ) == span_key(slots@, i, i + 1) by {}
            assert forall|id: int|
                1 <= id < pow2((fresh.spec_height() - 1) as nat) && (fresh.span_hi(id) <= 0
                    || slots@.len() <= fresh.span_lo(id) || slots@.len() <= 0) implies node_key(
                #[trigger] fresh.node_at(id),
            ) == span_key(slots@, fresh.span_lo(id), fresh.span_hi(id)) by {
                fresh.lemma_span(id);
                fresh.lemma_branch_depth(id);
            }
        }
        fresh.refresh(slots, 0, slots.len());
        *self = fresh;
    }
}

} // verus!
