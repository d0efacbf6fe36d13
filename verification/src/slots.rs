//! The slot model shared by every layer: a slot is an optional key/value
//! pair, and a slot sequence is described by the sequence of pairs that its
//! occupied slots hold, in slot order.

use vstd::prelude::*;

verus! {

/// One cell of the packed memory array: empty, or an ordered (key, value) pair.
pub type Slot = Option<(usize, usize)>;

/// The pairs held by the occupied slots of `s`, in slot order.
pub open spec fn entries(s: Seq<Slot>) -> Seq<(usize, usize)>
    decreases s.len(),
{
    if s.len() == 0 {
        Seq::empty()
    } else {
        entries(s.drop_last()) + match s.last() {
            Some(kv) => seq![kv],
            None => Seq::empty(),
        }
    }
}

/// The keys of a pair sequence are strictly increasing.
pub open spec fn sorted_entries(e: Seq<(usize, usize)>) -> bool {
    forall|i: int, j: int| 0 <= i < j < e.len() ==> e[i].0 < e[j].0
}

/// Slot `j` of `s` holds a pair.
pub open spec fn occupied(s: Seq<Slot>, j: int) -> bool {
    0 <= j < s.len() && s[j] is Some
}

/// The key held by slot `j` of `s`.
pub open spec fn key_at(s: Seq<Slot>, j: int) -> usize {
    (s[j]->0).0
}

/// The number of entries among the first `j` slots: the position that the
/// pair in slot `j` takes in `entries(s)`.
pub open spec fn rank(s: Seq<Slot>, j: int) -> int {
    entries(s.subrange(0, j)).len() as int
}

/// `n` slots holding the pairs of `e` compacted at the front, empty after.
pub open spec fn compacted(e: Seq<(usize, usize)>, n: int) -> Seq<Slot> {
    Seq::new(n as nat, |i: int| if i < e.len() { Some(e[i]) } else { None })
}

/// The finite map induced by a pair sequence; a later pair wins on a
/// repeated key (the sequences of this crate have distinct keys).
pub open spec fn map_of(e: Seq<(usize, usize)>) -> Map<usize, usize>
    decreases e.len(),
{
    if e.len() == 0 {
        Map::empty()
    } else {
        map_of(e.drop_last()).insert(e.last().0, e.last().1)
    }
}

pub proof fn lemma_sorted_concat(a: Seq<(usize, usize)>, b: Seq<(usize, usize)>)
    ensures
        sorted_entries(a + b) <==> (sorted_entries(a) && sorted_entries(b)
            && forall|i: int, j: int|
                0 <= i < a.len() && 0 <= j < b.len() ==> a[i].0 < b[j].0),
{
    if sorted_entries(a) && sorted_entries(b) && forall|i: int, j: int|
        0 <= i < a.len() && 0 <= j < b.len() ==> a[i].0 < b[j].0 {
        assert forall|i: int, j: int| 0 <= i < j < (a + b).len() implies (a + b)[i].0 < (a
            + b)[j].0 by {
            if i < a.len() && j >= a.len() {
                assert(a[i].0 < b[j - a.len()].0);
            }
        }
    }
    if sorted_entries(a + b) {
        assert forall|i: int, j: int| 0 <= i < j < a.len() implies a[i].0 < a[j].0 by {
            assert((a + b)[i].0 < (a + b)[j].0);
        }
        assert forall|i: int, j: int| 0 <= i < j < b.len() implies b[i].0 < b[j].0 by {
            assert((a + b)[a.len() + i].0 < (a + b)[a.len() + j].0);
        }
        assert forall|i: int, j: int|
            0 <= i < a.len() && 0 <= j < b.len() implies a[i].0 < b[j].0 by {
            assert((a + b)[i].0 < (a + b)[a.len() + j].0);
        }
    }
}

pub proof fn lemma_entries_push(s: Seq<Slot>, x: Slot)
    ensures
        entries(s.push(x)) == entries(s) + match x {
            Some(kv) => seq![kv],
            None => Seq::<(usize, usize)>::empty(),
        },
{
    assert(s.push(x).drop_last() =~= s);
    assert(s.push(x).last() == x);
}

pub proof fn lemma_entries_concat(a: Seq<Slot>, b: Seq<Slot>)
    ensures
        entries(a + b) == entries(a) + entries(b),
    decreases b.len(),
{
    if b.len() == 0 {
        assert(a + b =~= a);
        assert(entries(b) =~= Seq::<(usize, usize)>::empty());
        assert(entries(a) + entries(b) =~= entries(a));
    } else {
        lemma_entries_concat(a, b.drop_last());
        assert((a + b).drop_last() =~= a + b.drop_last());
        assert((a + b).last() == b.last());
        assert(entries(a + b) =~= entries(a) + entries(b));
    }
}

pub proof fn lemma_entries_len(s: Seq<Slot>)
    ensures
        entries(s).len() <= s.len(),
    decreases s.len(),
{
    if s.len() > 0 {
        lemma_entries_len(s.drop_last());
    }
}

pub proof fn lemma_entries_all_some(s: Seq<Slot>)
    requires
        forall|j: int| 0 <= j < s.len() ==> s[j] is Some,
    ensures
        entries(s).len() == s.len(),
        forall|j: int| 0 <= j < s.len() ==> entries(s)[j] == s[j]->0,
    decreases s.len(),
{
    if s.len() > 0 {
        lemma_entries_all_some(s.drop_last());
        assert forall|j: int| 0 <= j < s.len() implies entries(s)[j] == s[j]->0 by {
            if j < s.len() - 1 {
                assert(entries(s.drop_last())[j] == s.drop_last()[j]->0);
            }
        }
    }
}

pub proof fn lemma_entries_all_none(s: Seq<Slot>)
    requires
        forall|j: int| 0 <= j < s.len() ==> s[j] is None,
    ensures
        entries(s).len() == 0,
    decreases s.len(),
{
    if s.len() > 0 {
        lemma_entries_all_none(s.drop_last());
    }
}

pub proof fn lemma_entries_singleton(x: Slot)
    ensures
        entries(seq![x]) == match x {
            Some(kv) => seq![kv],
            None => Seq::<(usize, usize)>::empty(),
        },
{
    reveal_with_fuel(entries, 2);
    assert(seq![x].drop_last() =~= Seq::<Slot>::empty());
    assert(entries(seq![x]) =~= match x {
        Some(kv) => seq![kv],
        None => Seq::<(usize, usize)>::empty(),
    });
}

/// A sequence with fewer entries than slots has an empty slot.
pub proof fn lemma_entries_gap(s: Seq<Slot>)
    requires
        entries(s).len() < s.len(),
    ensures
        exists|j: int| 0 <= j < s.len() && s[j] is None,
{
    if forall|j: int| 0 <= j < s.len() ==> s[j] is Some {
        lemma_entries_all_some(s);
        assert(false);
    }
}

/// The pair in slot `j` stands in `entries(s)` at position `rank(s, j)`.
pub proof fn lemma_rank(s: Seq<Slot>, j: int)
    requires
        occupied(s, j),
    ensures
        0 <= rank(s, j) < entries(s).len(),
        entries(s)[rank(s, j)] == s[j]->0,
    decreases s.len(),
{
    lemma_entries_len(s.subrange(0, j));
    if j == s.len() - 1 {
        assert(s.subrange(0, j) =~= s.drop_last());
    } else {
        lemma_rank(s.drop_last(), j);
        assert(s.drop_last().subrange(0, j) =~= s.subrange(0, j));
    }
}

/// Ranks of occupied slots grow strictly with the slot index.
pub proof fn lemma_rank_monotone(s: Seq<Slot>, i: int, j: int)
    requires
        occupied(s, i),
        0 <= i < j <= s.len(),
    ensures
        rank(s, i) < entries(s.subrange(0, j)).len(),
{
    assert(s.subrange(0, j) =~= s.subrange(0, i) + (s.subrange(i, i + 1) + s.subrange(i + 1, j)));
    lemma_entries_concat(s.subrange(0, i), s.subrange(i, i + 1) + s.subrange(i + 1, j));
    lemma_entries_concat(s.subrange(i, i + 1), s.subrange(i + 1, j));
    assert(s.subrange(i, i + 1) =~= seq![s[i]]);
    assert(entries(seq![s[i]]).len() == 1) by {
        reveal_with_fuel(entries, 2);
        assert(seq![s[i]].drop_last() =~= Seq::<Slot>::empty());
    }
}

/// Each position of `entries(s)` is the rank of some occupied slot.
pub proof fn lemma_entry_source(s: Seq<Slot>, p: int)
    requires
        0 <= p < entries(s).len(),
    ensures
        exists|j: int|
            occupied(s, j) && rank(s, j) == p && s[j]->0 == entries(s)[p],
    decreases s.len(),
{
    if s.len() > 0 {
        if s.last() is Some && p == entries(s).len() - 1 {
            let j = s.len() - 1;
            lemma_rank(s, j);
            assert(s.subrange(0, j) =~= s.drop_last());
            lemma_entries_len(s.drop_last());
            assert(occupied(s, j) && rank(s, j) == p && s[j]->0 == entries(s)[p]);
        } else {
            lemma_entry_source(s.drop_last(), p);
            let j = choose|j: int|
                occupied(s.drop_last(), j) && rank(s.drop_last(), j) == p
                    && s.drop_last()[j]->0 == entries(s.drop_last())[p];
            assert(s.drop_last().subrange(0, j) =~= s.subrange(0, j));
            assert(occupied(s, j) && rank(s, j) == p && s[j]->0 == entries(s)[p]);
        }
    }
}

/// Splitting a slot sequence splits its entries.
pub proof fn lemma_entries_split3(s: Seq<Slot>, a: int, b: int)
    requires
        0 <= a <= b <= s.len(),
    ensures
        entries(s) == entries(s.subrange(0, a)) + entries(s.subrange(a, b)) + entries(
            s.subrange(b, s.len() as int),
        ),
{
    assert(s =~= (s.subrange(0, a) + s.subrange(a, b)) + s.subrange(b, s.len() as int));
    lemma_entries_concat(s.subrange(0, a) + s.subrange(a, b), s.subrange(b, s.len() as int));
    lemma_entries_concat(s.subrange(0, a), s.subrange(a, b));
}

/// The entries around one slot.
pub proof fn lemma_entries_around(s: Seq<Slot>, j: int)
    requires
        0 <= j < s.len(),
    ensures
        entries(s) == entries(s.subrange(0, j)) + match s[j] {
            Some(kv) => seq![kv],
            None => Seq::<(usize, usize)>::empty(),
        } + entries(s.subrange(j + 1, s.len() as int)),
{
    lemma_entries_split3(s, j, j + 1);
    assert(s.subrange(j, j + 1) =~= seq![s[j]]);
    lemma_entries_singleton(s[j]);
}

/// Two slot sequences that agree outside a window and whose windows hold
/// the same entries hold the same entries overall.
pub proof fn lemma_entries_outside_preserved(s1: Seq<Slot>, s2: Seq<Slot>, from: int, to: int)
    requires
        s1.len() == s2.len(),
        0 <= from <= to <= s1.len(),
        forall|m: int| 0 <= m < s1.len() && !(from <= m < to) ==> s2[m] == s1[m],
        entries(s2.subrange(from, to)) == entries(s1.subrange(from, to)),
    ensures
        entries(s2) == entries(s1),
{
    lemma_entries_split3(s1, from, to);
    lemma_entries_split3(s2, from, to);
    assert(s2.subrange(0, from) =~= s1.subrange(0, from));
    assert(s2.subrange(to, s2.len() as int) =~= s1.subrange(to, s1.len() as int));
}

pub proof fn lemma_entries_compacted(e: Seq<(usize, usize)>, n: int)
    requires
        n >= e.len(),
    ensures
        entries(compacted(e, n)) == e,
    decreases n,
{
    if n == 0 {
        assert(compacted(e, n) =~= Seq::<Slot>::empty());
        assert(entries(compacted(e, n)) =~= e);
    } else if n - 1 >= e.len() {
        lemma_entries_compacted(e, n - 1);
        assert(compacted(e, n).drop_last() =~= compacted(e, n - 1));
        assert(compacted(e, n).last() == None::<(usize, usize)>);
        assert(entries(compacted(e, n)) =~= e);
    } else {
        lemma_entries_compacted(e.drop_last(), n - 1);
        assert(compacted(e, n).drop_last() =~= compacted(e.drop_last(), n - 1));
        assert(compacted(e, n).last() == Some(e.last()));
        assert(entries(compacted(e, n)) =~= e);
    }
}

pub proof fn lemma_map_of_contains(e: Seq<(usize, usize)>, k: usize)
    ensures
        map_of(e).contains_key(k) <==> exists|p: int| 0 <= p < e.len() && e[p].0 == k,
    decreases e.len(),
{
    if e.len() > 0 {
        lemma_map_of_contains(e.drop_last(), k);
        if map_of(e).contains_key(k) && e.last().0 != k {
            let p = choose|p: int| 0 <= p < e.drop_last().len() && e.drop_last()[p].0 == k;
            assert(e[p].0 == k);
        }
        if exists|p: int| 0 <= p < e.len() && e[p].0 == k {
            let p = choose|p: int| 0 <= p < e.len() && e[p].0 == k;
            if p < e.len() - 1 {
                assert(e.drop_last()[p].0 == k);
            }
        }
    }
}

/// With distinct keys, the map reads back exactly the pairs of the sequence.
pub proof fn lemma_map_of_index(e: Seq<(usize, usize)>, p: int)
    requires
        sorted_entries(e),
        0 <= p < e.len(),
    ensures
        map_of(e).contains_key(e[p].0),
        map_of(e)[e[p].0] == e[p].1,
    decreases e.len(),
{
    if p == e.len() - 1 {
    } else {
        lemma_map_of_index(e.drop_last(), p);
        assert(e.drop_last()[p] == e[p]);
        assert(e[p].0 != e.last().0);
    }
}

pub proof fn lemma_map_of_insert_middle(
    a: Seq<(usize, usize)>,
    kv: (usize, usize),
    b: Seq<(usize, usize)>,
)
    requires
        forall|q: int| 0 <= q < b.len() ==> b[q].0 != kv.0,
    ensures
        map_of(a + seq![kv] + b) == map_of(a + b).insert(kv.0, kv.1),
    decreases b.len(),
{
    if b.len() == 0 {
        assert(a + b =~= a);
        assert((a + seq![kv] + b) =~= (a + seq![kv]));
        assert((a + seq![kv]).drop_last() =~= a);
        assert((a + seq![kv]).last() == kv);
    } else {
        lemma_map_of_insert_middle(a, kv, b.drop_last());
        assert((a + seq![kv] + b).drop_last() =~= a + seq![kv] + b.drop_last());
        assert((a + b).drop_last() =~= a + b.drop_last());
        assert((a + seq![kv] + b).last() == b.last());
        assert((a + b).last() == b.last());
        let m0 = map_of(a + b.drop_last());
        assert(map_of(a + seq![kv] + b) == m0.insert(kv.0, kv.1).insert(b.last().0, b.last().1));
        assert(map_of(a + b).insert(kv.0, kv.1) == m0.insert(b.last().0, b.last().1).insert(
            kv.0,
            kv.1,
        ));
        assert(m0.insert(kv.0, kv.1).insert(b.last().0, b.last().1) =~= m0.insert(
            b.last().0,
            b.last().1,
        ).insert(kv.0, kv.1));
    }
}

pub proof fn lemma_map_of_len(e: Seq<(usize, usize)>)
    requires
        sorted_entries(e),
    ensures
        map_of(e).dom().finite(),
        map_of(e).dom().len() == e.len(),
    decreases e.len(),
{
    if e.len() > 0 {
        lemma_map_of_len(e.drop_last());
        lemma_map_of_contains(e.drop_last(), e.last().0);
        assert(forall|p: int|
            0 <= p < e.drop_last().len() ==> e.drop_last()[p].0 != e.last().0);
        assert(!map_of(e.drop_last()).contains_key(e.last().0));
        assert(map_of(e).dom() =~= map_of(e.drop_last()).dom().insert(e.last().0));
    }
}

pub proof fn lemma_map_of_remove_middle(
    a: Seq<(usize, usize)>,
    kv: (usize, usize),
    b: Seq<(usize, usize)>,
)
    requires
        sorted_entries(a + seq![kv] + b),
    ensures
        map_of(a + b) == map_of(a + seq![kv] + b).remove(kv.0),
{
    lemma_sorted_concat(a + seq![kv], b);
    lemma_sorted_concat(a, seq![kv]);
    assert forall|q: int| 0 <= q < b.len() implies b[q].0 != kv.0 by {
        assert((a + seq![kv])[a.len() as int].0 < b[q].0);
    }
    lemma_map_of_insert_middle(a, kv, b);
    lemma_map_of_contains(a + b, kv.0);
    assert forall|p: int| 0 <= p < (a + b).len() implies (a + b)[p].0 != kv.0 by {
        if p < a.len() {
            assert((a + seq![kv])[p] == a[p]);
            assert((a + seq![kv])[a.len() as int] == kv);
            assert(a[p].0 < kv.0);
        } else {
            assert((a + b)[p] == b[p - a.len()]);
        }
    }
    assert(!map_of(a + b).contains_key(kv.0));
    assert(map_of(a + b).insert(kv.0, kv.1).remove(kv.0) =~= map_of(a + b));
}

/// Replacing the value of the middle pair updates the map at its key.
pub proof fn lemma_map_of_update_middle(
    a: Seq<(usize, usize)>,
    kv0: (usize, usize),
    kv1: (usize, usize),
    b: Seq<(usize, usize)>,
)
    requires
        sorted_entries(a + seq![kv0] + b),
        kv1.0 == kv0.0,
    ensures
        map_of(a + seq![kv1] + b) == map_of(a + seq![kv0] + b).insert(kv1.0, kv1.1),
{
    lemma_sorted_concat(a + seq![kv0], b);
    lemma_sorted_concat(a, seq![kv0]);
    assert forall|q: int| 0 <= q < b.len() implies b[q].0 != kv0.0 by {
        assert((a + seq![kv0])[a.len() as int].0 < b[q].0);
    }
    lemma_map_of_insert_middle(a, kv0, b);
    lemma_map_of_insert_middle(a, kv1, b);
    assert(map_of(a + b).insert(kv0.0, kv0.1).insert(kv1.0, kv1.1) =~= map_of(a + b).insert(
        kv1.0,
        kv1.1,
    ));
}

/// A key is in the map exactly when some occupied slot holds it.
pub proof fn lemma_map_of_contains_slot(s: Seq<Slot>, k: usize)
    ensures
        map_of(entries(s)).contains_key(k) <==> exists|j: int|
            #[trigger] occupied(s, j) && key_at(s, j) == k,
{
    lemma_map_of_contains(entries(s), k);
    if exists|j: int| #[trigger] occupied(s, j) && key_at(s, j) == k {
        let j = choose|j: int| #[trigger] occupied(s, j) && key_at(s, j) == k;
        lemma_rank(s, j);
        assert(entries(s)[rank(s, j)].0 == k);
    }
    if exists|p: int| 0 <= p < entries(s).len() && entries(s)[p].0 == k {
        let p = choose|p: int| 0 <= p < entries(s).len() && entries(s)[p].0 == k;
        lemma_entry_source(s, p);
        let j = choose|j: int|
            occupied(s, j) && rank(s, j) == p && s[j]->0 == entries(s)[p];
        assert(occupied(s, j) && key_at(s, j) == k);
    }
}

} // verus!
