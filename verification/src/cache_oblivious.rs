//! The cache-oblivious ordered map: a packed memory array of sorted slots
//! searched through the van Emde Boas index tree.  The tree routes every
//! key to its slot position; the array performs the update and reports the
//! window it rewrote; the tree refreshes its keys over that window, or is
//! rebuilt when the array resized.

use vstd::prelude::*;

verus! {

use vstd::arithmetic::power2::pow2;
use crate::slots::Slot;
use crate::slots::entries;
use crate::slots::sorted_entries;
use crate::slots::occupied;
use crate::slots::key_at;
use crate::slots::rank;
use crate::slots::map_of;
use crate::slots::lemma_entries_concat;
use crate::slots::lemma_entries_around;
use crate::slots::lemma_rank;
use crate::slots::lemma_rank_monotone;
use crate::slots::lemma_entry_source;
use crate::slots::lemma_map_of_len;
use crate::slots::lemma_map_of_index;
use crate::slots::lemma_map_of_insert_middle;
use crate::slots::lemma_map_of_update_middle;
use crate::slots::lemma_map_of_remove_middle;
use crate::slots::lemma_map_of_contains_slot;
use crate::slots::lemma_sorted_concat;
use crate::packed_memory_array::PackedMemoryArray;
use crate::veb_tree::VebTree;
use crate::veb_tree::node_key;
use crate::veb_tree::span_key;

/// An ordered map from `usize` keys to `usize` values with a
/// cache-oblivious layout.
pub struct BTreeMap {
    tree: VebTree,
    pma: PackedMemoryArray,
    size: usize,
}

/// After slots changed only inside `[f, t)`, the tree's leaves outside the
/// window and its branches whose spans miss the window still describe the
/// new slots: exactly what a refresh over `[f, t)` asks for.
proof fn lemma_refresh_ready(t: VebTree, s_old: Seq<Slot>, s_new: Seq<Slot>, f: int, tt: int)
    requires
        t.wf_for(s_old),
        s_new.len() == s_old.len(),
        0 <= f <= tt <= s_new.len(),
        forall|m: int| 0 <= m < s_new.len() && !(f <= m < tt) ==> s_new[m] == s_old[m],
    ensures
        forall|i: int|
            0 <= i < s_new.len() && !(f <= i < tt) ==> node_key(
                #[trigger] t.node_at(pow2((t.spec_height() - 1) as nat) + i),
            ) == span_key(s_new, i, i + 1),
        forall|id: int|
            1 <= id < pow2((t.spec_height() - 1) as nat) && (t.span_hi(id) <= f || tt
                <= t.span_lo(id) || tt <= f) ==> node_key(#[trigger] t.node_at(id)) == span_key(
                s_new,
                t.span_lo(id),
                t.span_hi(id),
            ),
{
    let fl = pow2((t.spec_height() - 1) as nat) as int;
    vstd::arithmetic::power2::lemma_pow2_unfold(t.spec_height());
    assert forall|i: int|
        0 <= i < s_new.len() && !(f <= i < tt) implies node_key(
        #[trigger] t.node_at(fl + i),
    ) == span_key(s_new, i, i + 1) by {
        t.lemma_leaf_span(i);
        assert(s_new.subrange(i, i + 1) =~= s_old.subrange(i, i + 1));
    }
    assert forall|id: int|
        1 <= id < fl && (t.span_hi(id) <= f || tt <= t.span_lo(id) || tt <= f) implies node_key(
        #[trigger] t.node_at(id),
    ) == span_key(s_new, t.span_lo(id), t.span_hi(id)) by {
        t.lemma_span(id);
        t.lemma_branch_depth(id);
        assert(s_new.subrange(t.span_lo(id), t.span_hi(id)) =~= s_old.subrange(
            t.span_lo(id),
            t.span_hi(id),
        ));
    }
}

impl View for BTreeMap {
    type V = Map<usize, usize>;

    closed spec fn view(&self) -> Map<usize, usize> {
        map_of(entries(self.pma.slots()))
    }
}

impl BTreeMap {
    pub closed spec fn slots(self) -> Seq<Slot> {
        self.pma.slots()
    }

    /// The live pairs in ascending key order.
    pub open spec fn entry_seq(self) -> Seq<(usize, usize)> {
        entries(self.slots())
    }

    pub closed spec fn spec_capacity(self) -> nat {
        self.pma.capacity()
    }

    pub closed spec fn wf(self) -> bool {
        &&& self.pma.wf()
        &&& self.tree.wf_for(self.pma.slots())
        &&& self.size == entries(self.pma.slots()).len()
    }

    /// The ordering and counting laws behind the map view: the entry
    /// sequence is strictly sorted by key, it induces the map, and its
    /// length is the map's size.
    pub proof fn lemma_view(self)
        requires
            self.wf(),
        ensures
            sorted_entries(self.entry_seq()),
            self@ == map_of(self.entry_seq()),
            self@.dom().finite(),
            self@.dom().len() == self.entry_seq().len(),
            self.entry_seq().len() < self.spec_capacity(),
    {
        lemma_map_of_len(self.entry_seq());
    }

    pub closed spec fn spec_tree(self) -> VebTree {
        self.tree
    }

    /// The index tree always describes the slot array: each node's key is
    /// the span key of its slots (see `VebTree::lemma_node_key_max` for
    /// the greatest-present-key reading).
    pub proof fn lemma_tree_consistent(self)
        requires
            self.wf(),
        ensures
            self.spec_tree().wf_for(self.slots()),
    {
    }

    /// Every slot sequence invariant behind the public view: occupied
    /// slots carry strictly ascending keys from left to right.
    pub proof fn lemma_slots_sorted(self)
        requires
            self.wf(),
        ensures
            forall|i: int, j: int|
                #![trigger occupied(self.slots(), i), occupied(self.slots(), j)]
                occupied(self.slots(), i) && occupied(self.slots(), j) && i < j ==> key_at(
                    self.slots(),
                    i,
                ) < key_at(self.slots(), j),
    {
        assert forall|i: int, j: int|
            occupied(self.slots(), i) && occupied(self.slots(), j) && i < j implies key_at(
            self.slots(),
            i,
        ) < key_at(self.slots(), j) by {
            lemma_rank_monotone(self.slots(), i, j);
            lemma_rank(self.slots(), i);
            lemma_rank(self.slots(), j);
            assert(entries(self.slots().subrange(0, j)).len() <= rank(self.slots(), j));
        }
    }

    pub fn new() -> (r: Self)
        ensures
            r.wf(),
            r@ == Map::<usize, usize>::empty(),
            r.entry_seq() == Seq::<(usize, usize)>::empty(),
            r.spec_capacity() == 1,
    {
        proof {
            vstd::arithmetic::power2::lemma2_to64();
        }
        let pma = PackedMemoryArray::new();
        let tree = VebTree::new(1);
        proof {
            assert(pma.slots() =~= seq![None::<(usize, usize)>]);
            assert(entries(pma.slots()) =~= Seq::<(usize, usize)>::empty());
            assert forall|id: int|
                1 <= id < pow2(1nat) implies node_key(#[trigger] tree.node_at(id)) == span_key(
                pma.slots(),
                tree.span_lo(id),
                tree.span_hi(id),
            ) by {
                tree.lemma_leaf_span(id - 1);
                assert(pma.slots().subrange(id - 1, id) =~= seq![pma.slots()[id - 1]]);
                crate::slots::lemma_entries_singleton(pma.slots()[id - 1]);
            }
        }
        BTreeMap { tree, pma, size: 0 }
    }

    pub fn len(&self) -> (n: usize)
        requires
            self.wf(),
        ensures
            n == self.entry_seq().len(),
            n == self@.dom().len(),
    {
        proof {
            self.lemma_view();
        }
        self.size
    }

    pub fn is_empty(&self) -> (r: bool)
        requires
            self.wf(),
        ensures
            r <==> self.entry_seq().len() == 0,
            r <==> self@.dom().len() == 0,
    {
        proof {
            self.lemma_view();
        }
        self.size == 0
    }

    pub fn clear(&mut self)
        ensures
            final(self).wf(),
            final(self)@ == Map::<usize, usize>::empty(),
            final(self).entry_seq() == Seq::<(usize, usize)>::empty(),
            final(self).spec_capacity() == 1,
    {
        *self = Self::new();
    }

    /// Inserts the pair, returning the value the key held before, if any.
    pub fn insert(&mut self, key: usize, value: usize) -> (r: Option<usize>)
        requires
            old(self).wf(),
            4 * old(self).spec_capacity() <= usize::MAX,
        ensures
            final(self).wf(),
            final(self)@ == old(self)@.insert(key, value),
            r == (if old(self)@.contains_key(key) {
                Some(old(self)@[key])
            } else {
                None::<usize>
            }),
            final(self).entry_seq().len() == old(self).entry_seq().len() + (
            if old(self)@.contains_key(key) {
                0int
            } else {
                1int
            }),
            final(self).spec_capacity() <= 2 * old(self).spec_capacity(),
    {
        let ghost s0 = self.pma.slots();
        let ghost cap0 = self.pma.capacity() as int;
        let index = self.tree.find_index(key, Ghost(s0));
        proof {
            lemma_map_of_contains_slot(s0, key);
            self.lemma_slots_sorted();
            assert forall|j: int|
                #[trigger] occupied(s0, j) && key_at(s0, j) == key implies j == index as int by {
                assert(s0[index as int] is Some && key_at(s0, index as int) == key);
                assert(occupied(s0, index as int));
                assert(occupied(self.slots(), index as int));
                assert(occupied(self.slots(), j));
                if j < index as int {
                    assert(key_at(s0, j) < key_at(s0, index as int));
                }
                if j > index as int {
                    assert(key_at(s0, index as int) < key_at(s0, j));
                }
            }
        }
        let (old_v, range) = self.pma.insert(index, (key, value));
        let ghost s1 = self.pma.slots();
        proof {
            let pre = entries(s0.subrange(0, index as int));
            if index < cap0 && s0[index as int] is Some && (s0[index as int]->0).0 == key {
                // replace in place
                let v0 = (s0[index as int]->0).1;
                lemma_entries_around(s0, index as int);
                lemma_rank(s0, index as int);
                let post = entries(s0.subrange(index as int + 1, cap0));
                assert(entries(s0) == pre + seq![(key, v0)] + post);
                assert(entries(s1) =~= pre + seq![(key, value)] + post) by {
                    assert(entries(s1) == entries(s0).update(rank(s0, index as int), (key, value)));
                    assert(rank(s0, index as int) == pre.len());
                }
                lemma_map_of_update_middle(pre, (key, v0), (key, value), post);
                lemma_map_of_index(entries(s0), rank(s0, index as int));
                assert(old(self)@.contains_key(key) && old(self)@[key] == v0);
            } else {
                // a fresh key
                assert(forall|j: int| #[trigger] occupied(s0, j) ==> key_at(s0, j) != key);
                lemma_map_of_contains_slot(s0, key);
                assert(!old(self)@.contains_key(key));
                let post = entries(s0.subrange(index as int, cap0));
                assert(s0 =~= s0.subrange(0, index as int) + s0.subrange(index as int, cap0));
                lemma_entries_concat(
                    s0.subrange(0, index as int),
                    s0.subrange(index as int, cap0),
                );
                assert(entries(s0) == pre + post);
                assert forall|q: int| 0 <= q < post.len() implies post[q].0 != key by {
                    lemma_entry_source(s0.subrange(index as int, cap0), q);
                    let j = choose|j: int|
                        occupied(s0.subrange(index as int, cap0), j) && rank(
                            s0.subrange(index as int, cap0),
                            j,
                        ) == q && s0.subrange(index as int, cap0)[j]->0 == post[q];
                    assert(occupied(s0, index + j) && key_at(s0, index + j) == post[q].0);
                }
                lemma_map_of_insert_middle(pre, (key, value), post);
            }
        }
        if old_v.is_none() {
            proof {
                crate::slots::lemma_entries_len(s0);
            }
            self.size = self.size + 1;
        }
        match range {
            Some((f, t)) => {
                proof {
                    lemma_refresh_ready(self.tree, s0, s1, f as int, t as int);
                }
                let kv = self.pma.get_key_values();
                self.tree.refresh(kv, f, t);
            },
            None => {
                proof {
                    self.pma.lemma_capacity_pow2();
                }
                let kv = self.pma.get_key_values();
                self.tree.rebuild(kv);
            },
        }
        old_v
    }

    /// Removes the key, returning the value it held, if any.
    pub fn remove(&mut self, key: &usize) -> (r: Option<usize>)
        requires
            old(self).wf(),
        ensures
            final(self).wf(),
            final(self)@ == old(self)@.remove(*key),
            r == (if old(self)@.contains_key(*key) {
                Some(old(self)@[*key])
            } else {
                None::<usize>
            }),
            final(self).entry_seq().len() == old(self).entry_seq().len() - (
            if old(self)@.contains_key(*key) {
                1int
            } else {
                0int
            }),
            final(self).spec_capacity() <= old(self).spec_capacity(),
    {
        let ghost s0 = self.pma.slots();
        let ghost cap0 = self.pma.capacity() as int;
        let index = self.tree.find_index(*key, Ghost(s0));
        proof {
            lemma_map_of_contains_slot(s0, *key);
        }
        if index >= self.pma.data_len() {
            proof {
                assert(!old(self)@.contains_key(*key));
                assert(old(self)@.remove(*key) =~= old(self)@);
            }
            return None;
        }
        let slot = self.pma.get_slot(index);
        let hit = match slot {
            Some((k0, _)) => k0 == *key,
            None => false,
        };
        if !hit {
            proof {
                assert(!old(self)@.contains_key(*key));
                assert(old(self)@.remove(*key) =~= old(self)@);
            }
            return None;
        }
        let ghost v0 = (s0[index as int]->0).1;
        let (old_v, range) = self.pma.remove(index);
        let ghost s1 = self.pma.slots();
        proof {
            let pre = entries(s0.subrange(0, index as int));
            let post = entries(s0.subrange(index as int + 1, cap0));
            lemma_entries_around(s0, index as int);
            assert(entries(s0) == pre + seq![(*key, v0)] + post);
            assert(entries(s1) == pre + post);
            lemma_map_of_remove_middle(pre, (*key, v0), post);
            lemma_rank(s0, index as int);
            lemma_map_of_index(entries(s0), rank(s0, index as int));
            assert(old(self)@.contains_key(*key) && old(self)@[*key] == v0);
        }
        self.size = self.size - 1;
        match range {
            Some((f, t)) => {
                proof {
                    lemma_refresh_ready(self.tree, s0, s1, f as int, t as int);
                }
                let kv = self.pma.get_key_values();
                self.tree.refresh(kv, f, t);
            },
            None => {
                proof {
                    self.pma.lemma_capacity_pow2();
                }
                let kv = self.pma.get_key_values();
                self.tree.rebuild(kv);
            },
        }
        old_v
    }

    /// Looks the key up.
    pub fn get(&self, key: &usize) -> (r: Option<usize>)
        requires
            self.wf(),
        ensures
            r == (if self@.contains_key(*key) {
                Some(self@[*key])
            } else {
                None::<usize>
            }),
    {
        let ghost s0 = self.pma.slots();
        let index = self.tree.find_index(*key, Ghost(s0));
        proof {
            lemma_map_of_contains_slot(s0, *key);
        }
        if index >= self.pma.data_len() {
            return None;
        }
        match self.pma.get_slot(index) {
            Some((k0, v0)) => {
                if k0 == *key {
                    proof {
                        lemma_rank(s0, index as int);
                        lemma_map_of_index(entries(s0), rank(s0, index as int));
                    }
                    Some(v0)
                } else {
                    None
                }
            },
            None => None,
        }
    }
}

impl BTreeMap {
    /// All live pairs in ascending key order.
    pub fn get_all_key_values(&self) -> (r: Vec<(usize, usize)>)
        requires
            self.wf(),
        ensures
            r@ == self.entry_seq(),
            sorted_entries(r@),
            map_of(r@) == self@,
    {
        proof {
            self.lemma_view();
        }
        let kv = self.pma.get_key_values();
        let n = kv.len();
        let mut r: Vec<(usize, usize)> = Vec::new();
        let mut i: usize = 0;
        proof {
            assert(kv@.subrange(0, 0) =~= Seq::<Slot>::empty());
        }
        while i < n
            invariant
                i <= n,
                n == kv@.len(),
                kv@ == self.slots(),
                r@ == entries(kv@.subrange(0, i as int)),
            decreases n - i,
        {
            proof {
                assert(kv@.subrange(0, i + 1) =~= kv@.subrange(0, i as int).push(
                    kv@[i as int],
                ));
                crate::slots::lemma_entries_push(kv@.subrange(0, i as int), kv@[i as int]);
            }
            match kv[i] {
                Some(p) => {
                    r.push(p);
                },
                None => {},
            }
            i = i + 1;
        }
        proof {
            assert(kv@.subrange(0, n as int) =~= kv@);
        }
        r
    }

    /// The first `k` pairs in key order (all of them when fewer exist).
    pub fn get_top_k_key_values(&self, k: usize) -> (r: Vec<(usize, usize)>)
        requires
            self.wf(),
        ensures
            r@ == self.entry_seq().take(
                if k <= self.entry_seq().len() {
                    k as int
                } else {
                    self.entry_seq().len() as int
                },
            ),
    {
        let kv = self.pma.get_key_values();
        let n = kv.len();
        let mut r: Vec<(usize, usize)> = Vec::new();
        let mut i: usize = 0;
        proof {
            assert(kv@.subrange(0, 0) =~= Seq::<Slot>::empty());
        }
        while i < n && r.len() < k
            invariant
                i <= n,
                n == kv@.len(),
                kv@ == self.slots(),
                r@ == entries(kv@.subrange(0, i as int)),
                r@.len() <= k,
            decreases n - i,
        {
            proof {
                assert(kv@.subrange(0, i + 1) =~= kv@.subrange(0, i as int).push(
                    kv@[i as int],
                ));
                crate::slots::lemma_entries_push(kv@.subrange(0, i as int), kv@[i as int]);
            }
            match kv[i] {
                Some(p) => {
                    r.push(p);
                },
                None => {},
            }
            i = i + 1;
        }
        proof {
            assert(kv@ =~= kv@.subrange(0, i as int) + kv@.subrange(i as int, n as int));
            lemma_entries_concat(kv@.subrange(0, i as int), kv@.subrange(i as int, n as int));
            if i < n {
                // stopped because k pairs were collected
                assert(r@.len() == k);
            } else {
                assert(kv@.subrange(0, i as int) =~= kv@);
            }
            assert(r@ =~= self.entry_seq().take(
                if k <= self.entry_seq().len() {
                    k as int
                } else {
                    self.entry_seq().len() as int
                },
            ));
        }
        r
    }

    /// The keys in ascending order.
    pub fn key_vec(&self) -> (r: Vec<usize>)
        requires
            self.wf(),
        ensures
            r@ == self.entry_seq().map_values(|kv: (usize, usize)| kv.0),
    {
        let all = self.get_all_key_values();
        let n = all.len();
        let mut r: Vec<usize> = Vec::new();
        let mut i: usize = 0;
        while i < n
            invariant
                i <= n,
                n == all@.len(),
                all@ == self.entry_seq(),
                r@ == all@.subrange(0, i as int).map_values(|kv: (usize, usize)| kv.0),
            decreases n - i,
        {
            r.push(all[i].0);
            proof {
                assert(r@ =~= all@.subrange(0, i + 1).map_values(|kv: (usize, usize)| kv.0));
            }
            i = i + 1;
        }
        proof {
            assert(all@.subrange(0, n as int) =~= all@);
        }
        r
    }

    /// The values, ordered by their keys.
    pub fn value_vec(&self) -> (r: Vec<usize>)
        requires
            self.wf(),
        ensures
            r@ == self.entry_seq().map_values(|kv: (usize, usize)| kv.1),
    {
        let all = self.get_all_key_values();
        let n = all.len();
        let mut r: Vec<usize> = Vec::new();
        let mut i: usize = 0;
        while i < n
            invariant
                i <= n,
                n == all@.len(),
                all@ == self.entry_seq(),
                r@ == all@.subrange(0, i as int).map_values(|kv: (usize, usize)| kv.1),
            decreases n - i,
        {
            r.push(all[i].1);
            proof {
                assert(r@ =~= all@.subrange(0, i + 1).map_values(|kv: (usize, usize)| kv.1));
            }
            i = i + 1;
        }
        proof {
            assert(all@.subrange(0, n as int) =~= all@);
        }
        r
    }

    /// The least key present.
    pub fn get_first_key(&self) -> (r: Option<usize>)
        requires
            self.wf(),
        ensures
            r == (if self.entry_seq().len() == 0 {
                None::<usize>
            } else {
                Some(self.entry_seq()[0].0)
            }),
    {
        let kv = self.pma.get_key_values();
        let n = kv.len();
        let mut i: usize = 0;
        proof {
            assert(kv@.subrange(0, 0) =~= Seq::<Slot>::empty());
        }
        while i < n
            invariant
                i <= n,
                n == kv@.len(),
                kv@ == self.slots(),
                entries(kv@.subrange(0, i as int)).len() == 0,
            ensures
                i <= n,
                n == kv@.len(),
                kv@ == self.slots(),
                entries(kv@.subrange(0, i as int)).len() == 0,
                i < n ==> kv@[i as int] is Some,
            decreases n - i,
        {
            proof {
                assert(kv@.subrange(0, i + 1) =~= kv@.subrange(0, i as int).push(
                    kv@[i as int],
                ));
                crate::slots::lemma_entries_push(kv@.subrange(0, i as int), kv@[i as int]);
                if i + 1 == n {
                    assert(kv@.subrange(0, n as int) =~= kv@);
                }
            }
            match kv[i] {
                Some(_) => {
                    break ;
                },
                None => {},
            }
            i = i + 1;
        }
        if i == n {
            proof {
                assert(kv@.subrange(0, n as int) =~= kv@);
            }
            return None;
        }
        proof {
            assert(kv@ =~= kv@.subrange(0, i as int) + (seq![kv@[i as int]] + kv@.subrange(
                i + 1,
                n as int,
            )));
            lemma_entries_concat(
                kv@.subrange(0, i as int),
                seq![kv@[i as int]] + kv@.subrange(i + 1, n as int),
            );
            lemma_entries_concat(seq![kv@[i as int]], kv@.subrange(i + 1, n as int));
            crate::slots::lemma_entries_singleton(kv@[i as int]);
        }
        match self.pma.get_slot(i) {
            Some((k0, _)) => Some(k0),
            None => None,
        }
    }
}

/// Inserting a pair and reading it back yields the inserted value; the
/// pair removed afterwards is gone.  This is the round trip behind
/// `insert`, `get` and `remove`, whose contracts move the map view through
/// exactly these algebraic steps.
pub proof fn lemma_round_trip(m: Map<usize, usize>, k: usize, v: usize)
    ensures
        m.insert(k, v).contains_key(k),
        m.insert(k, v)[k] == v,
        !m.insert(k, v).remove(k).contains_key(k),
{
}

/// Removing an absent key leaves the map as it was, size included.
pub proof fn lemma_remove_absent(m: Map<usize, usize>, k: usize)
    requires
        !m.contains_key(k),
    ensures
        m.remove(k) == m,
{
    assert(m.remove(k) =~= m);
}

/// Writing a key twice keeps the second value and grows the map only
/// once: the first insert returns nothing, the second returns the first
/// value, by the contract of `insert`.
pub proof fn lemma_insert_replace(m: Map<usize, usize>, k: usize, v1: usize, v2: usize)
    requires
        m.dom().finite(),
    ensures
        m.insert(k, v1).contains_key(k),
        m.insert(k, v1)[k] == v1,
        m.insert(k, v1).insert(k, v2) == m.insert(k, v2),
        m.insert(k, v1).insert(k, v2).dom().len() == m.dom().len() + (if m.contains_key(k) {
            0int
        } else {
            1int
        }),
{
    assert(m.insert(k, v1).insert(k, v2) =~= m.insert(k, v2));
    assert(m.insert(k, v2).dom() =~= m.dom().insert(k));
    if m.contains_key(k) {
        assert(m.dom().insert(k) =~= m.dom());
    }
}

} // verus!
