//! The segment primitive: local operations on a contiguous window
//! `[from, to)` of the slot array — counting occupants, shifting to make
//! room for an insertion, compacting to the front, and redistributing the
//! occupants evenly.  Every operation keeps the window's entry sequence,
//! stated over `entries`.

use vstd::prelude::*;

verus! {

use crate::slots::Slot;
use crate::slots::entries;
use crate::slots::compacted;
use crate::slots::lemma_entries_push;
use crate::slots::lemma_entries_concat;
use crate::slots::lemma_entries_len;
use crate::slots::lemma_entries_all_some;
use crate::slots::lemma_entries_all_none;
use crate::slots::lemma_entries_singleton;
use crate::slots::lemma_entries_compacted;

/// The window slot (counted from the window's start) that the `k`-th of
/// `count` occupants takes after an even spread over `n` slots: the
/// rightmost occupant at `n - 1`, consecutive occupants `n / count` slots
/// apart, and one slot further apart below the first `n % count` of them.
pub open spec fn spread_pos(count: int, n: int, k: int) -> int {
    let s = n / count;
    let r = n % count;
    if k < r {
        s + k * (s + 1)
    } else {
        n - 1 - (count - 1 - k) * s
    }
}

/// Some occupant lands on window slot `m`.
pub open spec fn placed_at(count: int, n: int, m: int) -> bool {
    exists|k: int| 0 <= k < count && m == #[trigger] spread_pos(count, n, k)
}

/// The window after an even spread of the pairs `e` over `n` slots.
pub open spec fn spread(e: Seq<(usize, usize)>, n: int) -> Seq<Slot> {
    Seq::new(
        n as nat,
        |m: int|
            if placed_at(e.len() as int, n, m) {
                Some(
                    e[choose|k: int|
                        0 <= k < e.len() && m == spread_pos(e.len() as int, n, k)],
                )
            } else {
                None
            },
    )
}

pub proof fn lemma_spread_pos(count: int, n: int, k: int)
    requires
        1 <= count <= n,
        0 <= k < count,
    ensures
        0 <= spread_pos(count, n, k) < n,
        k == count - 1 ==> spread_pos(count, n, k) == n - 1,
        k >= 1 ==> spread_pos(count, n, k) == spread_pos(count, n, k - 1) + n / count + (
        if k < n % count {
            1int
        } else {
            0int
        }),
{
    let s = n / count;
    let r = n % count;
    vstd::arithmetic::div_mod::lemma_fundamental_div_mod(n, count);
    vstd::arithmetic::div_mod::lemma_mod_division_less_than_divisor(n, count);
    vstd::arithmetic::div_mod::lemma_div_is_ordered(count, n, count);
    vstd::arithmetic::div_mod::lemma_div_by_self(count);
    if k < r {
        assert(s + k * (s + 1) >= 0) by (nonlinear_arith)
            requires
                s >= 1,
                k >= 0,
        ;
        assert(s + k * (s + 1) <= s + (r - 1) * (s + 1)) by (nonlinear_arith)
            requires
                k <= r - 1,
                s >= 0,
        ;
        assert(s + (r - 1) * (s + 1) == r * s + r - 1) by (nonlinear_arith);
        assert(r * s <= count * s) by (nonlinear_arith)
            requires
                r <= count,
                s >= 0,
        ;
    } else {
        assert((count - 1 - k) * s >= 0) by (nonlinear_arith)
            requires
                k <= count - 1,
                s >= 0,
        ;
        assert((count - 1 - k) * s <= (count - 1) * s) by (nonlinear_arith)
            requires
                k >= 0,
                s >= 0,
        ;
        assert((count - 1) * s == count * s - s) by (nonlinear_arith);
        if k == count - 1 {
            assert((count - 1 - k) * s == 0) by (nonlinear_arith)
                requires
                    count - 1 - k == 0,
            ;
        }
    }
    if k >= 1 {
        if k < r {
            assert(s + k * (s + 1) == (s + (k - 1) * (s + 1)) + (s + 1)) by (nonlinear_arith);
        } else if k == r && r >= 1 {
            assert(s + (r - 1) * (s + 1) == r * s + r - 1) by (nonlinear_arith);
            assert(n - 1 - (count - 1 - r) * s == r * s + r - 1 + s) by (nonlinear_arith)
                requires
                    n == count * s + r,
            ;
        } else {
            assert(n - 1 - (count - 1 - k) * s == (n - 1 - (count - 1 - (k - 1)) * s) + s)
                by (nonlinear_arith);
        }
    }
}

pub proof fn lemma_spread_pos_increasing(count: int, n: int, k1: int, k2: int)
    requires
        1 <= count <= n,
        0 <= k1 < k2 < count,
    ensures
        spread_pos(count, n, k1) < spread_pos(count, n, k2),
    decreases k2 - k1,
{
    vstd::arithmetic::div_mod::lemma_div_is_ordered(count, n, count);
    vstd::arithmetic::div_mod::lemma_div_by_self(count);
    lemma_spread_pos(count, n, k2);
    if k1 < k2 - 1 {
        lemma_spread_pos_increasing(count, n, k1, k2 - 1);
    }
}

/// The `k`-th occupant is the one a spread puts at its position.
pub proof fn lemma_spread_index(e: Seq<(usize, usize)>, n: int, k: int)
    requires
        1 <= e.len() <= n,
        0 <= k < e.len(),
    ensures
        spread(e, n)[spread_pos(e.len() as int, n, k)] == Some(e[k]),
{
    let c = e.len() as int;
    let m = spread_pos(c, n, k);
    lemma_spread_pos(c, n, k);
    assert(placed_at(c, n, m));
    let k2 = choose|k2: int| 0 <= k2 < c && m == spread_pos(c, n, k2);
    if k2 < k {
        lemma_spread_pos_increasing(c, n, k2, k);
        assert(false);
    }
    if k2 > k {
        lemma_spread_pos_increasing(c, n, k, k2);
        assert(false);
    }
}

/// Clears slot `index`; a slot that is already empty stays as it is.
pub fn remove_key_value(v: &mut Vec<Slot>, index: usize)
    requires
        index < old(v)@.len(),
    ensures
        final(v)@ == old(v)@.update(index as int, None),
        old(v)@[index as int] is None ==> final(v)@ == old(v)@,
{
    proof {
        if old(v)@[index as int] is None {
            assert(old(v)@.update(index as int, None) =~= old(v)@);
        }
    }
    v.set(index, None);
}

/// The number of occupied slots in `[from, to)`.
pub fn count_range(v: &Vec<Slot>, from: usize, to: usize) -> (c: usize)
    requires
        from <= to,
        to <= v@.len(),
    ensures
        c == entries(v@.subrange(from as int, to as int)).len(),
{
    let mut c: usize = 0;
    let mut i: usize = from;
    proof {
        assert(v@.subrange(from as int, from as int) =~= Seq::<Slot>::empty());
    }
    while i < to
        invariant
            from <= i <= to,
            to <= v@.len(),
            c == entries(v@.subrange(from as int, i as int)).len(),
            c <= i - from,
        decreases to - i,
    {
        proof {
            assert(v@.subrange(from as int, (i + 1) as int) =~= v@.subrange(
                from as int,
                i as int,
            ).push(v@[i as int]));
            lemma_entries_push(v@.subrange(from as int, i as int), v@[i as int]);
        }
        if v[i].is_some() {
            c = c + 1;
        }
        i = i + 1;
    }
    c
}

/// Moves the contents of slot `src` into slot `dst` and empties `src`; a
/// move onto itself changes nothing.
pub fn move_slot(v: &mut Vec<Slot>, src: usize, dst: usize)
    requires
        src < old(v)@.len(),
        dst < old(v)@.len(),
    ensures
        final(v)@.len() == old(v)@.len(),
        src == dst ==> final(v)@ == old(v)@,
        src != dst ==> final(v)@ == old(v)@.update(dst as int, old(v)@[src as int]).update(
            src as int,
            None,
        ),
{
    if src == dst {
        return ;
    }
    let tmp = v[src];
    v.set(dst, tmp);
    v.set(src, None);
}

/// Moving a pair rightward across empty slots keeps the window's entries.
pub proof fn lemma_move_preserves_entries(s: Seq<Slot>, from: int, to: int, src: int, dst: int)
    requires
        0 <= from <= src < dst < to <= s.len(),
        forall|m: int| src < m <= dst ==> s[m] is None,
    ensures
        entries(s.update(dst, s[src]).update(src, None).subrange(from, to)) == entries(
            s.subrange(from, to),
        ),
{
    let t = s.update(dst, s[src]).update(src, None);
    let a = s.subrange(from, src);
    let gap = s.subrange(src + 1, dst + 1);
    let tail = s.subrange(dst + 1, to);
    let gap2 = s.subrange(src + 1, dst);
    assert(s.subrange(from, to) =~= a + seq![s[src]] + gap + tail);
    assert(t.subrange(from, to) =~= a + seq![None] + gap2 + seq![s[src]] + tail);
    lemma_entries_concat(a + seq![s[src]] + gap, tail);
    lemma_entries_concat(a + seq![s[src]], gap);
    lemma_entries_concat(a, seq![s[src]]);
    lemma_entries_concat(a + seq![None] + gap2 + seq![s[src]], tail);
    lemma_entries_concat(a + seq![None] + gap2, seq![s[src]]);
    lemma_entries_concat(a + seq![None], gap2);
    lemma_entries_concat(a, seq![None]);
    lemma_entries_singleton(s[src]);
    lemma_entries_singleton(None);
    lemma_entries_all_none(gap);
    lemma_entries_all_none(gap2);
    assert(entries(gap) =~= Seq::<(usize, usize)>::empty());
    assert(entries(gap2) =~= Seq::<(usize, usize)>::empty());
    assert(entries(t.subrange(from, to)) =~= entries(s.subrange(from, to)));
}

/// Stable left-compaction: after the call the window's entries fill its
/// first slots in order and the rest of the window is empty.
pub fn move_all_key_values_to_front(v: &mut Vec<Slot>, from: usize, to: usize)
    requires
        from <= to,
        to <= old(v)@.len(),
    ensures
        final(v)@.len() == old(v)@.len(),
        forall|m: int|
            0 <= m < final(v)@.len() && !(from <= m < to) ==> final(v)@[m] == old(v)@[m],
        final(v)@.subrange(from as int, to as int) == compacted(
            entries(old(v)@.subrange(from as int, to as int)),
            to - from,
        ),
{
    let mut num: usize = from;
    let mut i: usize = from;
    proof {
        assert(old(v)@.subrange(from as int, from as int) =~= Seq::<Slot>::empty());
    }
    while i < to
        invariant
            from <= num <= i <= to,
            to <= v@.len(),
            v@.len() == old(v)@.len(),
            forall|m: int| 0 <= m < v@.len() && !(from <= m < to) ==> v@[m] == old(v)@[m],
            num - from == entries(old(v)@.subrange(from as int, i as int)).len(),
            forall|m: int|
                from <= m < num ==> v@[m] == Some(
                    entries(old(v)@.subrange(from as int, i as int))[m - from],
                ),
            forall|m: int| num <= m < i ==> v@[m] is None,
            forall|m: int| i <= m < to ==> v@[m] == old(v)@[m],
        decreases to - i,
    {
        proof {
            assert(old(v)@.subrange(from as int, (i + 1) as int) =~= old(v)@.subrange(
                from as int,
                i as int,
            ).push(old(v)@[i as int]));
            lemma_entries_push(old(v)@.subrange(from as int, i as int), old(v)@[i as int]);
        }
        if v[i].is_some() {
            if i != num {
                let tmp = v[i];
                v.set(num, tmp);
                v.set(i, None);
            }
            num = num + 1;
        }
        i = i + 1;
    }
    proof {
        let e = entries(old(v)@.subrange(from as int, to as int));
        lemma_entries_len(old(v)@.subrange(from as int, to as int));
        assert(v@.subrange(from as int, to as int) =~= compacted(e, to - from));
    }
}

/// Inserts `kv` at window position `pos`: the first empty slot at or right
/// of `pos` is used by shifting `[pos, empty)` one step right; failing
/// that, the nearest empty slot left of `pos` is used by shifting
/// `[empty+1, pos)` one step left.  Either way the new pair stands between
/// the entries that were left and right of `pos`.
pub fn insert_key_value(v: &mut Vec<Slot>, from: usize, to: usize, pos: usize, kv: (usize, usize))
    requires
        from <= pos <= to,
        to <= old(v)@.len(),
        entries(old(v)@.subrange(from as int, to as int)).len() < to - from,
    ensures
        final(v)@.len() == old(v)@.len(),
        forall|m: int|
            0 <= m < final(v)@.len() && !(from <= m < to) ==> final(v)@[m] == old(v)@[m],
        entries(final(v)@.subrange(from as int, to as int)) == entries(
            old(v)@.subrange(from as int, pos as int),
        ) + seq![kv] + entries(old(v)@.subrange(pos as int, to as int)),
        // the first empty slot at or right of `pos` absorbs a right shift
        forall|i: int|
            pos <= i < to && old(v)@[i] is None && (forall|m: int|
                pos <= m < i ==> old(v)@[m] is Some) ==> final(v)@ == old(v)@.subrange(
                0,
                pos as int,
            ) + seq![Some(kv)] + old(v)@.subrange(pos as int, i) + old(v)@.subrange(
                i + 1,
                old(v)@.len() as int,
            ),
        // with no empty slot there, the nearest one on the left absorbs a
        // left shift and the pair lands one slot before `pos`
        forall|e: int|
            from < e <= pos && old(v)@[e - 1] is None && (forall|m: int|
                e <= m < pos ==> old(v)@[m] is Some) && (forall|m: int|
                pos <= m < to ==> old(v)@[m] is Some) ==> final(v)@ == old(v)@.subrange(
                0,
                e - 1,
            ) + old(v)@.subrange(e, pos as int) + seq![Some(kv)] + old(v)@.subrange(
                pos as int,
                old(v)@.len() as int,
            ),
{
    let ghost w0 = old(v)@;
    // Scan right from pos for the first empty slot.
    let mut i: usize = pos;
    while i < to && v[i].is_some()
        invariant
            pos <= i <= to,
            to <= v@.len(),
            v@ == w0,
            forall|m: int| pos <= m < i ==> v@[m] is Some,
        decreases to - i,
    {
        i = i + 1;
    }
    if i < to {
        // Empty slot at i: shift [pos, i) one step right, place kv at pos.
        let mut j: usize = i;
        while j > pos
            invariant
                pos <= j <= i < to,
                to <= v@.len(),
                v@.len() == w0.len(),
                forall|m: int| 0 <= m <= j ==> v@[m] == w0[m],
                forall|m: int| j < m <= i ==> v@[m] == w0[m - 1],
                forall|m: int| i < m < v@.len() ==> v@[m] == w0[m],
            decreases j,
        {
            let tmp = v[j - 1];
            v.set(j, tmp);
            j = j - 1;
        }
        v.set(pos, Some(kv));
        proof {
            assert(v@.subrange(from as int, to as int) =~= w0.subrange(from as int, pos as int)
                + seq![Some(kv)] + w0.subrange(pos as int, i as int) + w0.subrange(
                (i + 1) as int,
                to as int,
            ));
            lemma_entries_concat(
                w0.subrange(from as int, pos as int) + seq![Some(kv)] + w0.subrange(
                    pos as int,
                    i as int,
                ),
                w0.subrange((i + 1) as int, to as int),
            );
            lemma_entries_concat(
                w0.subrange(from as int, pos as int) + seq![Some(kv)],
                w0.subrange(pos as int, i as int),
            );
            lemma_entries_concat(w0.subrange(from as int, pos as int), seq![Some(kv)]);
            lemma_entries_singleton(Some(kv));
            assert(w0.subrange(pos as int, to as int) =~= w0.subrange(pos as int, i as int)
                + seq![w0[i as int]] + w0.subrange((i + 1) as int, to as int));
            lemma_entries_concat(
                w0.subrange(pos as int, i as int) + seq![w0[i as int]],
                w0.subrange((i + 1) as int, to as int),
            );
            lemma_entries_concat(w0.subrange(pos as int, i as int), seq![w0[i as int]]);
            lemma_entries_singleton(w0[i as int]);
            assert(entries(v@.subrange(from as int, to as int)) =~= entries(
                w0.subrange(from as int, pos as int),
            ) + seq![kv] + entries(w0.subrange(pos as int, to as int)));
            assert(v@ =~= w0.subrange(0, pos as int) + seq![Some(kv)] + w0.subrange(
                pos as int,
                i as int,
            ) + w0.subrange(i + 1, w0.len() as int));
            assert forall|i2: int|
                pos <= i2 < to && w0[i2] is None && (forall|m: int|
                    pos <= m < i2 ==> w0[m] is Some) implies v@ == w0.subrange(0, pos as int)
                + seq![Some(kv)] + w0.subrange(pos as int, i2) + w0.subrange(
                i2 + 1,
                w0.len() as int,
            ) by {
                if i2 < i as int {
                    assert(w0[i2] is Some);
                }
                if i2 > i as int {
                    assert(w0[i as int] is Some);
                }
            }
            assert forall|e2: int|
                from < e2 <= pos && w0[e2 - 1] is None && (forall|m: int|
                    e2 <= m < pos ==> w0[m] is Some) && (forall|m: int|
                    pos <= m < to ==> w0[m] is Some) implies v@ == w0.subrange(0, e2 - 1)
                + w0.subrange(e2, pos as int) + seq![Some(kv)] + w0.subrange(
                pos as int,
                w0.len() as int,
            ) by {
                assert(w0[i as int] is Some);
                assert(false);
            }
        }
    } else {
        // The window right of pos is full: scan left for an empty slot.
        let mut e: usize = pos;
        while e > from && v[e - 1].is_some()
            invariant
                from <= e <= pos,
                pos <= to,
                to <= v@.len(),
                v@ == w0,
                forall|m: int| e <= m < pos ==> v@[m] is Some,
            decreases e,
        {
            e = e - 1;
        }
        if e == from {
            // Every slot of the window is occupied, against the premise.
            proof {
                let w = w0.subrange(from as int, to as int);
                assert(forall|m: int| 0 <= m < w.len() ==> w[m] is Some);
                lemma_entries_all_some(w);
                assert(false);
            }
        } else {
            // Empty slot at e - 1: shift [e, pos) one step left, place kv
            // at pos - 1.
            let hole = e - 1;
            let mut j: usize = e;
            while j < pos
                invariant
                    e <= j <= pos,
                    hole == e - 1,
                    from < e <= pos <= to <= v@.len(),
                    v@.len() == w0.len(),
                    forall|m: int| 0 <= m < hole ==> v@[m] == w0[m],
                    forall|m: int| hole <= m < j - 1 ==> v@[m] == w0[m + 1],
                    v@[j - 1] is None,
                    forall|m: int| j <= m < v@.len() ==> v@[m] == w0[m],
                decreases pos - j,
            {
                let tmp = v[j];
                v.set(j - 1, tmp);
                v.set(j, None);
                j = j + 1;
            }
            v.set(pos - 1, Some(kv));
            proof {
                assert(v@.subrange(from as int, to as int) =~= w0.subrange(
                    from as int,
                    hole as int,
                ) + w0.subrange(e as int, pos as int) + seq![Some(kv)] + w0.subrange(
                    pos as int,
                    to as int,
                ));
                lemma_entries_concat(
                    w0.subrange(from as int, hole as int) + w0.subrange(e as int, pos as int)
                        + seq![Some(kv)],
                    w0.subrange(pos as int, to as int),
                );
                lemma_entries_concat(
                    w0.subrange(from as int, hole as int) + w0.subrange(e as int, pos as int),
                    seq![Some(kv)],
                );
                lemma_entries_concat(
                    w0.subrange(from as int, hole as int),
                    w0.subrange(e as int, pos as int),
                );
                lemma_entries_singleton(Some(kv));
                assert(w0.subrange(from as int, pos as int) =~= w0.subrange(
                    from as int,
                    hole as int,
                ) + seq![w0[hole as int]] + w0.subrange(e as int, pos as int));
                lemma_entries_concat(
                    w0.subrange(from as int, hole as int) + seq![w0[hole as int]],
                    w0.subrange(e as int, pos as int),
                );
                lemma_entries_concat(w0.subrange(from as int, hole as int), seq![w0[hole as int]]);
                lemma_entries_singleton(w0[hole as int]);
                assert(entries(v@.subrange(from as int, to as int)) =~= entries(
                    w0.subrange(from as int, pos as int),
                ) + seq![kv] + entries(w0.subrange(pos as int, to as int)));
                assert(v@ =~= w0.subrange(0, hole as int) + w0.subrange(e as int, pos as int)
                    + seq![Some(kv)] + w0.subrange(pos as int, w0.len() as int));
                assert forall|i2: int|
                    pos <= i2 < to && w0[i2] is None && (forall|m: int|
                        pos <= m < i2 ==> w0[m] is Some) implies v@ == w0.subrange(
                    0,
                    pos as int,
                ) + seq![Some(kv)] + w0.subrange(pos as int, i2) + w0.subrange(
                    i2 + 1,
                    w0.len() as int,
                ) by {
                    assert(w0[i2] is Some);
                    assert(false);
                }
                assert forall|e2: int|
                    from < e2 <= pos && w0[e2 - 1] is None && (forall|m: int|
                        e2 <= m < pos ==> w0[m] is Some) && (forall|m: int|
                        pos <= m < to ==> w0[m] is Some) implies v@ == w0.subrange(0, e2 - 1)
                    + w0.subrange(e2, pos as int) + seq![Some(kv)] + w0.subrange(
                    pos as int,
                    w0.len() as int,
                ) by {
                    if e2 < e as int {
                        assert(w0[(e - 1) as int] is Some);
                        assert(false);
                    }
                    if e2 > e as int {
                        assert(w0[e2 - 1] is Some);
                        assert(false);
                    }
                }
            }
        }
    }
}

/// Spreads the `count` occupants of the window evenly, the rightmost
/// anchored at the window's last slot: occupant `i` (from the right) moves
/// `sub_len` slots left of the previous one, one slot further for the
/// first `len % count` occupants counted from the left.  The window's
/// entries are unchanged.
pub fn shuffle_key_values(
    v: &mut Vec<Slot>,
    from: usize,
    to: usize,
    count: usize,
    need_compact: bool,
)
    requires
        from <= to,
        to <= old(v)@.len(),
        count == entries(old(v)@.subrange(from as int, to as int)).len(),
        !need_compact ==> forall|m: int| from <= m < from + count ==> old(v)@[m] is Some,
        !need_compact ==> forall|m: int| from + count <= m < to ==> old(v)@[m] is None,
    ensures
        final(v)@.len() == old(v)@.len(),
        forall|m: int|
            0 <= m < final(v)@.len() && !(from <= m < to) ==> final(v)@[m] == old(v)@[m],
        entries(final(v)@.subrange(from as int, to as int)) == entries(
            old(v)@.subrange(from as int, to as int),
        ),
        count == 0 ==> final(v)@ == old(v)@,
        count >= 1 ==> final(v)@.subrange(from as int, to as int) == spread(
            entries(old(v)@.subrange(from as int, to as int)),
            to - from,
        ),
{
    let ghost e0 = entries(old(v)@.subrange(from as int, to as int));
    let ghost n = (to - from) as int;
    let ghost c = count as int;
    proof {
        lemma_entries_len(old(v)@.subrange(from as int, to as int));
    }
    if count == 0 {
        return ;
    }
    if need_compact {
        move_all_key_values_to_front(v, from, to);
        proof {
            lemma_entries_compacted(e0, to - from);
        }
    }
    proof {
        assert(entries(v@.subrange(from as int, to as int)) == e0);
        assert forall|m: int| from + count <= m < to implies v@[m] is None by {
            if need_compact {
                assert(v@[m] == v@.subrange(from as int, to as int)[m - from]);
            }
        }
        // the first count window slots hold the pairs in order
        assert forall|m: int|
            from <= m < from + count implies v@[m] == Some(e0[m - from]) by {
            if need_compact {
                assert(v@[m] == v@.subrange(from as int, to as int)[m - from]);
            } else {
                let sub = v@.subrange(from as int, to as int);
                assert(sub =~= sub.subrange(0, c) + sub.subrange(c, n));
                lemma_entries_concat(sub.subrange(0, c), sub.subrange(c, n));
                lemma_entries_all_none(sub.subrange(c, n));
                assert(e0 =~= entries(sub.subrange(0, c)));
                lemma_entries_all_some(sub.subrange(0, c));
                assert(entries(sub.subrange(0, c))[m - from] == sub.subrange(0, c)[m
                    - from]->0);
                assert(v@[m] is Some);
            }
        }
    }
    let len = to - from;
    let sub_len = len / count;
    let rem = len % count;
    proof {
        vstd::arithmetic::div_mod::lemma_fundamental_div_mod(len as int, count as int);
        vstd::arithmetic::div_mod::lemma_mod_division_less_than_divisor(
            len as int,
            count as int,
        );
        vstd::arithmetic::div_mod::lemma_div_is_ordered(count as int, len as int, count as int);
        vstd::arithmetic::div_mod::lemma_div_by_self(count as int);
        lemma_spread_pos(c, n, c - 1);
    }
    let mut j: usize = to - 1;
    let mut i: usize = count;
    while i > 0
        invariant_except_break
            0 <= i <= count,
            1 <= count,
            from <= j < to,
            1 <= sub_len,
            to - from == count * sub_len + rem,
            rem < count,
            j - from + 1 >= i * sub_len + (if i as int - 1 <= rem as int {
                i as int - 1
            } else {
                rem as int
            }),
            forall|m: int| from + i <= m <= j ==> v@[m] is None,
        invariant
            to <= v@.len(),
            v@.len() == old(v)@.len(),
            n == to - from,
            c == count,
            1 <= count <= n,
            sub_len == n / c,
            rem == n % c,
            e0.len() == c,
            entries(v@.subrange(from as int, to as int)) == e0,
            forall|m: int| 0 <= m < v@.len() && !(from <= m < to) ==> v@[m] == old(v)@[m],
            i >= 1 ==> j == from + spread_pos(c, n, i as int - 1),
            forall|m: int| from <= m < from + i ==> v@[m] == Some(e0[m - from]),
            forall|k: int|
                i <= k < count ==> v@[from + #[trigger] spread_pos(c, n, k)] == Some(e0[k]),
            forall|m: int|
                from <= m < to && v@[m] is Some ==> m < from + i || placed_at(c, n, m - from),
        ensures
            v@.len() == old(v)@.len(),
            entries(v@.subrange(from as int, to as int)) == e0,
            forall|m: int| 0 <= m < v@.len() && !(from <= m < to) ==> v@[m] == old(v)@[m],
            forall|k: int|
                0 <= k < count ==> v@[from + #[trigger] spread_pos(c, n, k)] == Some(e0[k]),
            forall|m: int| from <= m < to && v@[m] is Some ==> placed_at(c, n, m - from),
        decreases i,
    {
        i = i - 1;
        proof {
            assert((i + 1) * sub_len == i * sub_len + sub_len) by (nonlinear_arith);
            assert(i * sub_len >= i) by (nonlinear_arith)
                requires
                    i >= 0,
                    sub_len >= 1,
            ;
            lemma_spread_pos(c, n, i as int);
            assert(j == from + spread_pos(c, n, i as int));
        }
        let ghost pre = v@;
        move_slot(v, from + i, j);
        proof {
            if from + i != j {
                lemma_move_preserves_entries(
                    pre,
                    from as int,
                    to as int,
                    (from + i) as int,
                    j as int,
                );
            }
            assert forall|k: int|
                i <= k < count implies v@[from + #[trigger] spread_pos(c, n, k)] == Some(
                e0[k],
            ) by {
                if k == i {
                    assert(pre[from + i] == Some(e0[i as int]));
                } else {
                    lemma_spread_pos_increasing(c, n, i as int, k);
                    lemma_spread_pos(c, n, k);
                    assert(v@[from + spread_pos(c, n, k)] == pre[from + spread_pos(c, n, k)]);
                }
            }
            assert forall|m: int|
                from <= m < to && v@[m] is Some implies m < from + i || placed_at(
                c,
                n,
                m - from,
            ) by {
                if m == j {
                    assert(m - from == spread_pos(c, n, i as int));
                } else if m != from + i {
                    assert(v@[m] == pre[m]);
                }
            }
        }
        if j - from < sub_len {
            proof {
                if i >= 1 {
                    assert((i + 1) * sub_len >= 2 * sub_len) by (nonlinear_arith)
                        requires
                            i >= 1,
                            sub_len >= 0,
                    ;
                    assert(false);
                }
            }
            break ;
        }
        j = j - sub_len;
        if i < rem && j > from {
            j = j - 1;
        }
        proof {
            if i >= 1 {
                lemma_spread_pos(c, n, i as int);
                lemma_spread_pos(c, n, i as int - 1);
                if i < rem {
                    // a position below the remainder line clears the
                    // window start by at least one slot, so the extra
                    // step is always taken
                    assert(spread_pos(c, n, i as int) == sub_len + (i as int) * (sub_len + 1));
                    assert((i as int) * (sub_len + 1) >= sub_len + 1) by (nonlinear_arith)
                        requires
                            i >= 1,
                            sub_len >= 0,
                    ;
                }
            }
        }
    }
    proof {
        assert forall|m: int|
            0 <= m < n implies v@.subrange(from as int, to as int)[m] == spread(e0, n)[m] by {
            if placed_at(c, n, m) {
                let k = choose|k: int| 0 <= k < c && m == spread_pos(c, n, k);
                lemma_spread_index(e0, n, k);
                assert(v@[from + spread_pos(c, n, k)] == Some(e0[k]));
            } else {
                assert(!(v@[from + m] is Some));
            }
        }
        assert(v@.subrange(from as int, to as int) =~= spread(e0, n));
    }
}

} // verus!
