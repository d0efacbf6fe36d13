//! The packed memory array: a slot array of capacity
//! `segment_size * 2^(height-1)` holding the map's entries in ascending key
//! order, with empty slots interspersed.  An insertion or deletion works on
//! the smallest aligned window around the touched slot whose occupancy
//! stays within the density bounds, redistributes it evenly, and reports
//! it; when no window qualifies the whole array is resized.

use vstd::prelude::*;

verus! {

use vstd::arithmetic::power2::pow2;
use vstd::arithmetic::power2::lemma_pow2_adds;
use vstd::arithmetic::power2::lemma_pow2_pos;
use vstd::arithmetic::power2::lemma_pow2_unfold;
use crate::slots::Slot;
use crate::slots::entries;
use crate::slots::sorted_entries;
use crate::slots::occupied;
use crate::slots::key_at;
use crate::slots::rank;
use crate::slots::compacted;
use crate::slots::lemma_entries_concat;
use crate::slots::lemma_entries_len;
use crate::slots::lemma_entries_singleton;
use crate::slots::lemma_entries_compacted;
use crate::slots::lemma_entry_source;
use crate::slots::lemma_entries_around;
use crate::slots::lemma_entries_outside_preserved;
use crate::slots::lemma_entries_split3;
use crate::slots::lemma_sorted_concat;
use crate::layout::lemma_pow2_le;
use crate::segment::count_range;
use crate::segment::insert_key_value;
use crate::segment::move_all_key_values_to_front;
use crate::segment::shuffle_key_values;

/// The upper density bound at `depth`: occupancy at most
/// `(3h + depth) / (4h)` of the window, as an exact integer comparison.
pub open spec fn upper_density_ok(h: int, depth: int, count: int, size: int) -> bool {
    count * (4 * h) <= size * (3 * h + depth)
}

/// The lower density bound at `depth`: occupancy at least
/// `(2h - depth) / (4h)` of the window.
pub open spec fn lower_density_ok(h: int, depth: int, count: int, size: int) -> bool {
    count * (4 * h) >= size * (2 * h - depth)
}

/// The width of the climb window at `depth` in an array of height `h`
/// with segments of `ss` slots.
pub open spec fn window_width(ss: nat, h: nat, depth: int) -> int {
    (ss * pow2((h - 1 - depth) as nat)) as int
}

/// The start of the aligned window at `depth` that covers slot `anchor`.
pub open spec fn window_lo(ss: nat, h: nat, anchor: int, depth: int) -> int {
    (anchor / window_width(ss, h, depth)) * window_width(ss, h, depth)
}

/// The number of pairs inside the aligned window at `depth` covering
/// `anchor` in the slots `s`.
pub open spec fn window_count(s: Seq<Slot>, ss: nat, h: nat, anchor: int, depth: int) -> int {
    entries(
        s.subrange(
            window_lo(ss, h, anchor, depth),
            window_lo(ss, h, anchor, depth) + window_width(ss, h, depth),
        ),
    ).len() as int
}

proof fn lemma_density_products_fit(h: int, depth: int, count: int, size: int)
    by (nonlinear_arith)
    requires
        1 <= h <= 64,
        0 <= depth < h,
        0 <= count <= u64::MAX,
        0 <= size <= u64::MAX,
    ensures
        count * (4 * h) <= u128::MAX,
        size * (3 * h + depth) <= u128::MAX,
        size * (2 * h - depth) <= u128::MAX,
        0 <= 2 * h - depth,
{
}

pub struct PackedMemoryArray {
    v: Vec<Slot>,
    height: usize,
    segment_size_log2: usize,
    segment_size: usize,
}

impl PackedMemoryArray {
    pub closed spec fn slots(self) -> Seq<Slot> {
        self.v@
    }

    pub closed spec fn spec_height(self) -> nat {
        self.height as nat
    }

    pub closed spec fn spec_segment_size(self) -> nat {
        self.segment_size as nat
    }

    pub closed spec fn spec_segment_size_log2(self) -> nat {
        self.segment_size_log2 as nat
    }

    pub open spec fn capacity(self) -> nat {
        self.slots().len()
    }

    /// The entries of the array, in slot order.
    pub open spec fn entry_seq(self) -> Seq<(usize, usize)> {
        entries(self.slots())
    }

    pub open spec fn wf(self) -> bool {
        &&& 1 <= self.spec_height()
        &&& self.spec_segment_size() == pow2(self.spec_segment_size_log2())
        &&& self.spec_segment_size_log2() + 1 <= self.spec_height()
        &&& self.spec_height() <= self.spec_segment_size_log2() + 2
        &&& self.capacity() == self.spec_segment_size() * pow2((self.spec_height() - 1) as nat)
        &&& self.capacity() <= usize::MAX
        &&& sorted_entries(self.entry_seq())
        &&& self.entry_seq().len() < self.capacity()
    }

    /// Inserting `kv` at `index` overwrites in place: the slot already
    /// holds a pair with the same key.
    pub open spec fn replaces(self, index: int, kv: (usize, usize)) -> bool {
        &&& index < self.capacity()
        &&& self.slots()[index] is Some
        &&& (self.slots()[index]->0).0 == kv.0
    }

    /// The slot whose aligned windows the insertion climb walks: the
    /// target slot itself, or the last slot when the pair is appended
    /// past the right edge.
    pub open spec fn insert_anchor(self, index: int) -> int {
        if index < self.capacity() {
            index
        } else {
            index - 1
        }
    }

    /// The aligned window at `depth` around `anchor` cannot take one more
    /// pair within its upper density bound.
    pub open spec fn window_cannot_take(self, anchor: int, depth: int) -> bool {
        !upper_density_ok(
            self.spec_height() as int,
            depth,
            window_count(
                self.slots(),
                self.spec_segment_size(),
                self.spec_height(),
                anchor,
                depth,
            ) + 1,
            window_width(self.spec_segment_size(), self.spec_height(), depth),
        )
    }

    /// After slot `index` is cleared, the aligned window at `depth`
    /// around it falls short of its lower density bound.
    pub open spec fn window_under_floor(self, index: int, depth: int) -> bool {
        !lower_density_ok(
            self.spec_height() as int,
            depth,
            window_count(
                self.slots().update(index, None),
                self.spec_segment_size(),
                self.spec_height(),
                index,
                depth,
            ),
            window_width(self.spec_segment_size(), self.spec_height(), depth),
        )
    }

    /// The capacity is the power of two `2^(segment_size_log2 + height - 1)`.
    pub proof fn lemma_capacity_pow2(self)
        requires
            self.wf(),
        ensures
            self.capacity() == pow2(
                (self.spec_segment_size_log2() + self.spec_height() - 1) as nat,
            ),
    {
        lemma_pow2_adds(
            self.spec_segment_size_log2(),
            (self.spec_height() - 1) as nat,
        );
    }

    /// The height fits comfortably in a machine word: `2^(height-1)` slots
    /// exist in memory.
    pub proof fn lemma_height_bound(self)
        requires
            self.wf(),
        ensures
            self.spec_height() <= 64,
    {
        lemma_pow2_pos(self.spec_segment_size_log2());
        assert(pow2((self.spec_height() - 1) as nat) <= self.capacity()) by {
            vstd::arithmetic::mul::lemma_mul_ordering(
                self.spec_segment_size() as int,
                pow2((self.spec_height() - 1) as nat) as int,
            );
        }
        if self.spec_height() > 64 {
            lemma_pow2_le(64, (self.spec_height() - 1) as nat);
            vstd::arithmetic::power2::lemma2_to64_rest();
            assert(pow2(64) == 0x10000000000000000);
            assert(false);
        }
    }

    pub fn new() -> (r: Self)
        ensures
            r.wf(),
            r.slots() =~= seq![None],
            r.entry_seq().len() == 0,
            r.spec_height() == 1,
            r.spec_segment_size() == 1,
    {
        let mut v: Vec<Slot> = Vec::new();
        v.push(None);
        proof {
            vstd::arithmetic::power2::lemma2_to64();
            assert(v@ =~= seq![None::<(usize, usize)>]);
            crate::slots::lemma_entries_all_none(v@);
        }
        PackedMemoryArray { v, height: 1, segment_size_log2: 0, segment_size: 1 }
    }

    /// The number of slots.
    pub fn data_len(&self) -> (n: usize)
        ensures
            n == self.capacity(),
    {
        self.v.len()
    }

    pub fn get_key_values(&self) -> (r: &Vec<Slot>)
        ensures
            r@ == self.slots(),
    {
        &self.v
    }

    pub fn get_slot(&self, i: usize) -> (s: Slot)
        requires
            i < self.capacity(),
        ensures
            s == self.slots()[i as int],
    {
        self.v[i]
    }

    pub fn height(&self) -> (h: usize)
        ensures
            h == self.spec_height(),
    {
        self.height
    }

    pub fn segment_size(&self) -> (s: usize)
        ensures
            s == self.spec_segment_size(),
    {
        self.segment_size
    }

    pub fn segment_size_log2(&self) -> (s: usize)
        ensures
            s == self.spec_segment_size_log2(),
    {
        self.segment_size_log2
    }

    /// Whether a window of `size` slots at `depth` may hold `count`
    /// occupants after an insertion.
    fn insert_density_ok(&self, depth: usize, count: usize, size: usize) -> (b: bool)
        requires
            1 <= self.spec_height() <= 64,
            depth < self.spec_height(),
        ensures
            b == upper_density_ok(
                self.spec_height() as int,
                depth as int,
                count as int,
                size as int,
            ),
    {
        proof {
            lemma_density_products_fit(
                self.height as int,
                depth as int,
                count as int,
                size as int,
            );
        }
        let h = self.height as u128;
        (count as u128) * (4 * h) <= (size as u128) * (3 * h + depth as u128)
    }

    /// Whether a window of `size` slots at `depth` may be left with
    /// `count` occupants after a deletion.
    fn remove_density_ok(&self, depth: usize, count: usize, size: usize) -> (b: bool)
        requires
            1 <= self.spec_height() <= 64,
            depth < self.spec_height(),
        ensures
            b == lower_density_ok(
                self.spec_height() as int,
                depth as int,
                count as int,
                size as int,
            ),
    {
        proof {
            lemma_density_products_fit(
                self.height as int,
                depth as int,
                count as int,
                size as int,
            );
        }
        let h = self.height as u128;
        (count as u128) * (4 * h) >= (size as u128) * (2 * h - depth as u128)
    }
}

impl PackedMemoryArray {
    /// Clears slot `index`.  An already empty slot is reported with its
    /// leaf window and nothing changes.  Otherwise the smallest aligned
    /// window around the slot whose occupancy stays at or above its lower
    /// density bound is redistributed and reported; when even the whole
    /// array falls short it is halved (or reset once empty) and no window
    /// is reported.
    #[verifier::rlimit(100)]
    pub fn remove(&mut self, index: usize) -> (r: (Option<usize>, Option<(usize, usize)>))
        requires
            old(self).wf(),
            index < old(self).capacity(),
        ensures
            final(self).wf(),
            old(self).slots()[index as int] is None ==> r.0 is None && r.1 is Some
                && final(self).slots() == old(self).slots() && final(self).spec_height() == old(
                self,
            ).spec_height() && final(self).spec_segment_size() == old(self).spec_segment_size(),
            old(self).slots()[index as int] is Some ==> r.0 == Some(
                (old(self).slots()[index as int]->0).1,
            ) && final(self).entry_seq() == entries(old(self).slots().subrange(0, index as int))
                + entries(
                old(self).slots().subrange(index + 1, old(self).capacity() as int),
            ),
            match r.1 {
                Some((f, t)) => {
                    &&& f <= index < t <= old(self).capacity()
                    &&& final(self).capacity() == old(self).capacity()
                    &&& final(self).spec_height() == old(self).spec_height()
                    &&& final(self).spec_segment_size() == old(self).spec_segment_size()
                    &&& forall|m: int|
                        0 <= m < final(self).capacity() && !(f <= m < t) ==> final(self).slots()[m]
                            == old(self).slots()[m]
                    &&& old(self).slots()[index as int] is Some ==> final(self).slots().subrange(
                        f as int,
                        t as int,
                    ) == crate::segment::spread(
                        entries(final(self).slots().subrange(f as int, t as int)),
                        t - f,
                    ) && (exists|d: int|
                        {
                            &&& 0 <= d < old(self).spec_height()
                            &&& f == window_lo(
                                old(self).spec_segment_size(),
                                old(self).spec_height(),
                                index as int,
                                d,
                            )
                            &&& t - f == #[trigger] window_width(
                                old(self).spec_segment_size(),
                                old(self).spec_height(),
                                d,
                            )
                            &&& lower_density_ok(
                                old(self).spec_height() as int,
                                d,
                                entries(
                                    final(self).slots().subrange(f as int, t as int),
                                ).len() as int,
                                t - f,
                            )
                            &&& forall|dd: int|
                                d < dd < old(self).spec_height() ==> old(
                                    self,
                                ).window_under_floor(index as int, dd)
                        })
                },
                None => {
                    &&& forall|dd: int|
                        0 <= dd < old(self).spec_height() ==> old(self).window_under_floor(
                            index as int,
                            dd,
                        )
                    &&& (final(self).capacity() == 1 && final(self).spec_height() == 1
                        && final(self).spec_segment_size() == 1
                        && final(self).entry_seq().len() == 0) || (2 * final(self).capacity()
                        == old(self).capacity() && (old(self).spec_height() - 1 == old(
                        self,
                    ).spec_segment_size_log2() ==> final(self).spec_height() == old(
                        self,
                    ).spec_height() && 2 * final(self).spec_segment_size() == old(
                        self,
                    ).spec_segment_size()) && (old(self).spec_height() - 1 != old(
                        self,
                    ).spec_segment_size_log2() ==> final(self).spec_height() == old(
                        self,
                    ).spec_height() - 1 && final(self).spec_segment_size() == old(
                        self,
                    ).spec_segment_size()))
                    &&& final(self).slots() == crate::segment::spread(
                        final(self).entry_seq(),
                        final(self).capacity() as int,
                    )
                },
            },
    {
        proof {
            old(self).lemma_height_bound();
            old(self).lemma_capacity_pow2();
        }
        let ghost h0 = old(self).spec_height() as int;
        let ghost h0n = old(self).spec_height();
        let ghost ss0n = old(self).spec_segment_size();
        let ghost cap0 = old(self).capacity() as int;
        let ghost p0 = pow2((old(self).spec_height() - 1) as nat) as int;
        let ss = self.segment_size;
        proof {
            lemma_pow2_pos(old(self).spec_segment_size_log2());
        }
        let seg_id = index / ss;
        proof {
            vstd::arithmetic::div_mod::lemma_fundamental_div_mod(index as int, ss as int);
            vstd::arithmetic::div_mod::lemma_mod_division_less_than_divisor(
                index as int,
                ss as int,
            );
            assert((index as int) < (ss as int) * p0);
            vstd::arithmetic::div_mod::lemma_multiply_divide_lt(index as int, ss as int, p0);
            assert((seg_id + 1) * (ss as int) <= p0 * (ss as int)) by (nonlinear_arith)
                requires
                    seg_id as int + 1 <= p0,
                    ss as int >= 1,
            ;
            assert(p0 * (ss as int) == cap0) by (nonlinear_arith)
                requires
                    cap0 == (ss as int) * p0,
            ;
            assert((seg_id as int) * (ss as int) + (ss as int) == (seg_id + 1) * (ss as int))
                by (nonlinear_arith);
            vstd::arithmetic::mul::lemma_mul_is_commutative(ss as int, seg_id as int);
            assert((seg_id as int) * (ss as int) <= index as int);
        }
        let from0 = seg_id * ss;
        let to0 = from0 + ss;
        let slot = self.v[index];
        if slot.is_none() {
            return (None, Some((from0, to0)));
        }
        let kv0 = slot.unwrap();
        let ghost s0 = self.v@;
        crate::segment::remove_key_value(&mut self.v, index);
        let ghost s1 = self.v@;
        let ghost pre = entries(s0.subrange(0, index as int));
        let ghost post = entries(s0.subrange(index + 1, s0.len() as int));
        proof {
            lemma_entries_around(s0, index as int);
            lemma_entries_around(s1, index as int);
            assert(s1.subrange(0, index as int) =~= s0.subrange(0, index as int));
            assert(s1.subrange(index + 1, s1.len() as int) =~= s0.subrange(
                index + 1,
                s0.len() as int,
            ));
            assert(entries(s1) =~= pre + post);
            // the entries without the removed pair are still sorted
            lemma_sorted_concat(pre + seq![kv0], post);
            lemma_sorted_concat(pre, seq![kv0]);
            lemma_sorted_concat(pre, post);
            assert forall|a: int, b: int|
                0 <= a < pre.len() && 0 <= b < post.len() implies pre[a].0 < post[b].0 by {
                assert((pre + seq![kv0])[a] == pre[a]);
            }
            assert(sorted_entries(pre + post));
            lemma_entries_len(s0);
            assert(s1 =~= old(self).slots().update(index as int, None));
            vstd::arithmetic::power2::lemma2_to64();
        }
        let mut from = from0;
        let mut to = to0;
        let mut size = ss;
        let mut count = count_range(&self.v, from, to);
        let mut depth = self.height - 1;
        let ghost mut q = seg_id as int;
        proof {
            assert(pow2(((old(self).spec_height() - 1) - depth as int) as nat) == 1);
            assert(old(self).spec_segment_size() * 1nat == old(self).spec_segment_size());
        }
        if self.remove_density_ok(depth, count, size) {
            proof {
                assert(count >= 1) by (nonlinear_arith)
                    requires
                        (count as int) * (4 * h0) >= (size as int) * (2 * h0 - depth as int),
                        0 <= depth as int,
                        (depth as int) < h0,
                        size as int >= 1,
                        1 <= h0,
                ;
            }
            let ghost before = self.v@;
            shuffle_key_values(&mut self.v, from, to, count, true);
            proof {
                lemma_entries_outside_preserved(before, self.v@, from as int, to as int);
                let d = depth as int;
                assert(window_width(ss0n, h0n, d) == size);
                assert(window_lo(ss0n, h0n, index as int, d) == from);
                assert(0 <= d < old(self).spec_height() && from as int == window_lo(
                    ss0n,
                    h0n,
                    index as int,
                    d,
                ) && to - from == window_width(ss0n, h0n, d) && lower_density_ok(
                    old(self).spec_height() as int,
                    d,
                    entries(self.v@.subrange(from as int, to as int)).len() as int,
                    to - from,
                ) && (forall|dd: int|
                    d < dd < h0n ==> old(self).window_under_floor(index as int, dd)));
            }
            return (Some(kv0.1), Some((from, to)));
        }
        proof {
            // the leaf window itself falls short of its floor
            assert(window_width(ss0n, h0n, depth as int) == size);
            assert(window_lo(ss0n, h0n, index as int, depth as int) == from);
            assert(old(self).window_under_floor(index as int, depth as int));
        }
        while depth > 0
            invariant
                self.v@ == s1,
                self.height == old(self).height,
                self.segment_size == old(self).segment_size,
                self.segment_size_log2 == old(self).segment_size_log2,
                old(self).wf(),
                s1.len() == old(self).capacity(),
                s1 == old(self).slots().update(index as int, None),
                old(self).slots()[index as int] == Some(kv0),
                pre == entries(old(self).slots().subrange(0, index as int)),
                post == entries(
                    old(self).slots().subrange(index + 1, old(self).capacity() as int),
                ),
                entries(s1) == pre + post,
                sorted_entries(pre + post),
                pre.len() + post.len() < s1.len(),
                !lower_density_ok(
                    old(self).spec_height() as int,
                    depth as int,
                    count as int,
                    size as int,
                ),
                1 <= old(self).spec_height() <= 64,
                depth < old(self).spec_height(),
                size == old(self).spec_segment_size() * pow2(
                    (old(self).spec_height() - 1 - depth) as nat,
                ),
                size >= 1,
                q >= 0,
                from == q * size,
                to == from + size,
                to <= s1.len(),
                from <= index < to,
                count == entries(s1.subrange(from as int, to as int)).len(),
                h0 == old(self).spec_height() as int,
                h0n == old(self).spec_height(),
                ss0n == old(self).spec_segment_size(),
                q == index as int / (size as int),
                forall|dd: int|
                    depth <= dd < h0n ==> old(self).window_under_floor(index as int, dd),
            decreases depth,
        {
            proof {
                lemma_pow2_pos((old(self).spec_height() - 1 - depth) as nat);
                vstd::arithmetic::div_mod::lemma_div_by_multiple(q, size as int);
                assert((q * size) / (size as int) == q);
                // the window count at this depth
                assert((size as int) * (pow2(depth as nat) as int) == old(
                    self,
                ).capacity() as int) by {
                    lemma_pow2_adds((old(self).spec_height() - 1 - depth) as nat, depth as nat);
                    let ssn = old(self).spec_segment_size() as int;
                    let pa = pow2((old(self).spec_height() - 1 - depth) as nat) as int;
                    let pb = pow2(depth as nat) as int;
                    assert((ssn * pa) * pb == ssn * (pa * pb)) by (nonlinear_arith);
                }
                assert((q + 1) * (size as int) <= (size as int) * (pow2(depth as nat) as int))
                    by (nonlinear_arith)
                    requires
                        q * (size as int) + (size as int) <= (size as int) * (pow2(
                            depth as nat,
                        ) as int),
                ;
                assert(q + 1 <= pow2(depth as nat) as int) by (nonlinear_arith)
                    requires
                        (q + 1) * (size as int) <= (size as int) * (pow2(depth as nat) as int),
                        size as int >= 1,
                ;
                lemma_pow2_unfold(depth as nat);
            }
            depth = depth - 1;
            if (from / size) % 2 == 1 {
                proof {
                    assert(q % 2 == 1);
                    assert(q * (size as int) >= 1 * (size as int)) by (nonlinear_arith)
                        requires
                            q >= 1,
                            size as int >= 0,
                    ;
                    assert((q - 1) * (size as int) == q * (size as int) - (size as int))
                        by (nonlinear_arith);
                    assert((q - 1) == 2 * ((q - 1) / 2));
                    assert(((q - 1) / 2) * (2 * (size as int)) == (q - 1) * (size as int))
                        by (nonlinear_arith)
                        requires
                            q - 1 == 2 * ((q - 1) / 2),
                    ;
                    lemma_entries_concat(
                        s1.subrange(from - size, from as int),
                        s1.subrange(from as int, to as int),
                    );
                    assert(s1.subrange(from - size, to as int) =~= s1.subrange(
                        from - size,
                        from as int,
                    ) + s1.subrange(from as int, to as int));
                    lemma_entries_len(s1.subrange(from - size, from as int));
                    lemma_entries_len(s1.subrange(from as int, to as int));
                }
                let c2 = count_range(&self.v, from - size, from);
                count = count + c2;
                from = from - size;
                proof {
                    vstd::arithmetic::div_mod::lemma_div_denominator(
                        index as int,
                        size as int,
                        2,
                    );
                    q = (q - 1) / 2;
                    assert(q == index as int / (2 * (size as int)));
                }
            } else {
                proof {
                    assert(q % 2 == 0);
                    assert(q + 1 != pow2((depth + 1) as nat) as int);
                    assert(q + 2 <= pow2((depth + 1) as nat) as int);
                    assert((q + 2) * (size as int) <= (size as int) * (pow2(
                        (depth + 1) as nat,
                    ) as int)) by (nonlinear_arith)
                        requires
                            q + 2 <= pow2((depth + 1) as nat) as int,
                            size as int >= 0,
                    ;
                    assert((q + 2) * (size as int) == q * (size as int) + 2 * (size as int))
                        by (nonlinear_arith);
                    assert((q / 2) * (2 * (size as int)) == q * (size as int))
                        by (nonlinear_arith)
                        requires
                            q == 2 * (q / 2),
                    ;
                    assert(((q / 2) + 1) * (2 * (size as int)) == q * (size as int) + 2 * (
                    size as int)) by (nonlinear_arith)
                        requires
                            q == 2 * (q / 2),
                    ;
                    lemma_entries_concat(
                        s1.subrange(from as int, to as int),
                        s1.subrange(to as int, to + size),
                    );
                    assert(s1.subrange(from as int, to + size) =~= s1.subrange(
                        from as int,
                        to as int,
                    ) + s1.subrange(to as int, to + size));
                    lemma_entries_len(s1.subrange(to as int, to + size));
                    lemma_entries_len(s1.subrange(from as int, to as int));
                }
                let c2 = count_range(&self.v, to, to + size);
                count = count + c2;
                to = to + size;
                proof {
                    vstd::arithmetic::div_mod::lemma_div_denominator(
                        index as int,
                        size as int,
                        2,
                    );
                    q = q / 2;
                    assert(q == index as int / (2 * (size as int)));
                }
            }
            proof {
                lemma_pow2_unfold((old(self).spec_height() - 1 - depth) as nat);
                let ssn = old(self).spec_segment_size() as int;
                let pa = pow2((old(self).spec_height() - 1 - depth) as nat) as int;
                let pb = pow2((old(self).spec_height() - 1 - (depth + 1)) as nat) as int;
                assert(ssn * pa == 2 * (ssn * pb)) by (nonlinear_arith)
                    requires
                        pa == 2 * pb,
                ;
            }
            size = size * 2;
            if self.remove_density_ok(depth, count, size) {
                proof {
                    assert(count >= 1) by (nonlinear_arith)
                        requires
                            (count as int) * (4 * h0) >= (size as int) * (2 * h0
                                - depth as int),
                            0 <= depth as int,
                            (depth as int) < h0,
                            size as int >= 1,
                            1 <= h0,
                    ;
                }
                let ghost before = self.v@;
                shuffle_key_values(&mut self.v, from, to, count, true);
                proof {
                    lemma_entries_outside_preserved(before, self.v@, from as int, to as int);
                    let d = depth as int;
                    assert(window_width(ss0n, h0n, d) == size);
                    assert(window_lo(ss0n, h0n, index as int, d) == from);
                    assert(0 <= d < old(self).spec_height() && from as int == window_lo(
                        ss0n,
                        h0n,
                        index as int,
                        d,
                    ) && to - from == window_width(ss0n, h0n, d) && lower_density_ok(
                        old(self).spec_height() as int,
                        d,
                        entries(self.v@.subrange(from as int, to as int)).len() as int,
                        to - from,
                    ) && (forall|dd: int|
                        d < dd < h0n ==> old(self).window_under_floor(index as int, dd)));
                }
                return (Some(kv0.1), Some((from, to)));
            }
            proof {
                // this window falls short of its floor as well
                assert(window_width(ss0n, h0n, depth as int) == size);
                assert(window_lo(ss0n, h0n, index as int, depth as int) == from);
                assert(old(self).window_under_floor(index as int, depth as int));
            }
        }
        // no window passes: the whole array is too sparse
        proof {
            assert(size == old(self).capacity()) by {
                lemma_pow2_adds(
                    old(self).spec_segment_size_log2(),
                    (old(self).spec_height() - 1) as nat,
                );
            }
            assert(q == 0) by (nonlinear_arith)
                requires
                    q >= 0,
                    q * (size as int) + (size as int) <= size as int,
                    size as int >= 1,
            ;
            assert(s1.subrange(0, s1.len() as int) =~= s1);
        }
        if count == 0 {
            let mut v: Vec<Slot> = Vec::new();
            v.push(None);
            self.v = v;
            self.height = 1;
            self.segment_size_log2 = 0;
            self.segment_size = 1;
            proof {
                vstd::arithmetic::power2::lemma2_to64();
                assert(self.v@ =~= seq![None::<(usize, usize)>]);
                crate::slots::lemma_entries_all_none(self.v@);
                assert(pre + post =~= entries(s1));
                assert(self.entry_seq() =~= pre + post);
                assert(self.entry_seq() =~= Seq::<(usize, usize)>::empty());
                assert(self.slots() =~= crate::segment::spread(
                    self.entry_seq(),
                    self.capacity() as int,
                ));
            }
            return (Some(kv0.1), None);
        }
        // compact, halve the storage, and spread the survivors
        proof {
            let ghost cnt = count as int;
            assert(cnt * (4 * h0) < cap0 * (2 * h0));
            assert(2 * cnt < cap0) by (nonlinear_arith)
                requires
                    cnt * (4 * h0) < cap0 * (2 * h0),
                    h0 >= 1,
                    cnt >= 0,
            ;
        }
        let cap = self.v.len();
        move_all_key_values_to_front(&mut self.v, 0, cap);
        let newcap = cap / 2;
        proof {
            // the capacity is a power of two at least 4, so it halves evenly
            let e = (old(self).spec_segment_size_log2() + old(self).spec_height() - 1) as nat;
            if e == 0 {
                assert(false);
            }
            lemma_pow2_unfold(e);
            assert(cap == 2 * pow2((e - 1) as nat));
            assert(newcap == pow2((e - 1) as nat));
            assert(self.v@.subrange(0, cap as int) =~= self.v@);
            assert(self.v@ == compacted(pre + post, cap as int));
        }
        self.v.truncate(newcap);
        proof {
            assert(self.v@ =~= compacted(pre + post, newcap as int));
            lemma_entries_compacted(pre + post, newcap as int);
            assert forall|m: int| count <= m < newcap implies self.v@[m] is None by {}
            assert(self.v@.subrange(0, newcap as int) =~= self.v@);
            assert(from == 0);
            assert(count == (pre + post).len());
        }
        let ghost s2 = self.v@;
        shuffle_key_values(&mut self.v, 0, newcap, count, false);
        proof {
            assert(s2.subrange(0, newcap as int) =~= s2);
            assert(self.v@.subrange(0, newcap as int) =~= self.v@);
            assert(self.entry_seq() == pre + post);
            assert(self.slots() == crate::segment::spread(
                self.entry_seq(),
                self.capacity() as int,
            ));
        }
        if self.height - 1 == self.segment_size_log2 {
            proof {
                // capacity at least 4 with a square shape forces a
                // segment of at least two slots
                if self.segment_size_log2 == 0 {
                    assert(old(self).capacity() == pow2((old(self).spec_height() - 1) as nat));
                    assert(old(self).spec_height() == 1);
                    vstd::arithmetic::power2::lemma2_to64();
                    assert(false);
                }
                lemma_pow2_unfold(old(self).spec_segment_size_log2());
            }
            self.segment_size_log2 = self.segment_size_log2 - 1;
            self.segment_size = self.segment_size / 2;
        } else {
            self.height = self.height - 1;
        }
        proof {
            lemma_pow2_unfold(
                (old(self).spec_segment_size_log2() + old(self).spec_height() - 1) as nat,
            );
            assert(self.capacity() == self.spec_segment_size() * pow2(
                (self.spec_height() - 1) as nat,
            )) by {
                lemma_pow2_adds(
                    self.spec_segment_size_log2(),
                    (self.spec_height() - 1) as nat,
                );
                lemma_pow2_adds(
                    old(self).spec_segment_size_log2(),
                    (old(self).spec_height() - 1) as nat,
                );
            }
        }
        (Some(kv0.1), None)
    }
}

impl PackedMemoryArray {
    /// Inserts `kv` at slot position `index`, the sorted position that the
    /// caller has located: keys left of `index` are smaller, keys at or
    /// right of it at least `kv.0`, and an equal key can only sit at
    /// `index` itself.  An equal key is replaced in place, its old value
    /// returned and the leaf window reported.  Otherwise the smallest
    /// aligned window around the slot that can take the pair within its
    /// upper density bound is filled and redistributed and its bounds
    /// reported; when even the whole array cannot, it doubles first and no
    /// window is reported.
    #[verifier::rlimit(100)]
    pub fn insert(&mut self, index: usize, kv: (usize, usize)) -> (r: (
        Option<usize>,
        Option<(usize, usize)>,
    ))
        requires
            old(self).wf(),
            index <= old(self).capacity(),
            2 * old(self).capacity() <= usize::MAX,
            forall|j: int|
                occupied(old(self).slots(), j) && j < index ==> key_at(old(self).slots(), j)
                    < kv.0,
            forall|j: int|
                occupied(old(self).slots(), j) && j >= index ==> key_at(old(self).slots(), j)
                    >= kv.0,
            forall|j: int|
                occupied(old(self).slots(), j) && key_at(old(self).slots(), j) == kv.0 ==> j
                    == index,
        ensures
            final(self).wf(),
            old(self).replaces(index as int, kv) ==> r.0 == Some(
                (old(self).slots()[index as int]->0).1,
            ) && final(self).slots() == old(self).slots().update(index as int, Some(kv))
                && final(self).entry_seq() == old(self).entry_seq().update(
                rank(old(self).slots(), index as int),
                kv,
            ) && (match r.1 {
                Some((f, t)) => f == old(self).spec_segment_size() * (index as int / old(
                    self,
                ).spec_segment_size() as int) && t == f + old(self).spec_segment_size(),
                None => false,
            }),
            !old(self).replaces(index as int, kv) ==> r.0 is None && final(self).entry_seq()
                == entries(old(self).slots().subrange(0, index as int)) + seq![kv] + entries(
                old(self).slots().subrange(index as int, old(self).capacity() as int),
            ),
            match r.1 {
                Some((f, t)) => {
                    &&& f <= t <= old(self).capacity()
                    &&& final(self).capacity() == old(self).capacity()
                    &&& final(self).spec_height() == old(self).spec_height()
                    &&& final(self).spec_segment_size() == old(self).spec_segment_size()
                    &&& forall|m: int|
                        0 <= m < final(self).capacity() && !(f <= m < t) ==> final(self).slots()[m]
                            == old(self).slots()[m]
                    &&& !old(self).replaces(index as int, kv) ==> f <= index <= t
                        && final(self).slots().subrange(f as int, t as int)
                        == crate::segment::spread(
                        entries(final(self).slots().subrange(f as int, t as int)),
                        t - f,
                    ) && (exists|d: int|
                        {
                            &&& 0 <= d < old(self).spec_height()
                            &&& f == window_lo(
                                old(self).spec_segment_size(),
                                old(self).spec_height(),
                                old(self).insert_anchor(index as int),
                                d,
                            )
                            &&& t - f == #[trigger] window_width(
                                old(self).spec_segment_size(),
                                old(self).spec_height(),
                                d,
                            )
                            &&& upper_density_ok(
                                old(self).spec_height() as int,
                                d,
                                entries(
                                    final(self).slots().subrange(f as int, t as int),
                                ).len() as int,
                                t - f,
                            )
                            &&& forall|dd: int|
                                d < dd < old(self).spec_height() ==> old(
                                    self,
                                ).window_cannot_take(old(self).insert_anchor(index as int), dd)
                        })
                },
                None => {
                    &&& final(self).capacity() == 2 * old(self).capacity()
                    &&& forall|dd: int|
                        0 <= dd < old(self).spec_height() ==> old(self).window_cannot_take(
                            old(self).insert_anchor(index as int),
                            dd,
                        )
                    &&& old(self).spec_height() - 1 == old(self).spec_segment_size_log2()
                        ==> final(self).spec_height() == old(self).spec_height() + 1
                        && final(self).spec_segment_size() == old(self).spec_segment_size()
                    &&& old(self).spec_height() - 1 != old(self).spec_segment_size_log2()
                        ==> final(self).spec_height() == old(self).spec_height()
                        && final(self).spec_segment_size() == 2 * old(self).spec_segment_size()
                    &&& final(self).slots() == crate::segment::spread(
                        final(self).entry_seq(),
                        final(self).capacity() as int,
                    )
                },
            },
    {
        proof {
            old(self).lemma_height_bound();
            old(self).lemma_capacity_pow2();
            vstd::arithmetic::power2::lemma2_to64();
        }
        let ghost s0 = old(self).slots();
        let ghost h0 = old(self).spec_height() as int;
        let ghost h0n = old(self).spec_height();
        let ghost ss0n = old(self).spec_segment_size();
        let ghost cap0 = old(self).capacity() as int;
        let ghost p0 = pow2((old(self).spec_height() - 1) as nat) as int;
        let ghost anchor: int = if (index as int) < cap0 {
            index as int
        } else {
            index as int - 1
        };
        let ss = self.segment_size;
        proof {
            lemma_pow2_pos(old(self).spec_segment_size_log2());
        }
        // replace in place when the key already sits at index
        if index < self.v.len() {
            let slot = self.v[index];
            if slot.is_some() {
                let (k0, _) = slot.unwrap();
                if k0 == kv.0 {
                    let rr = self.replace_at(index, kv);
                    return (Some(rr.0), Some(rr.1));
                }
            }
        }
        // fresh insertion: the key is nowhere in the array
        proof {
            assert forall|j: int| occupied(s0, j) implies key_at(s0, j) != kv.0 by {
                if key_at(s0, j) == kv.0 {
                    assert(j == index);
                }
            }
        }
        let seg_id: usize;
        let mut segment_pos: usize;
        if index == self.v.len() {
            proof {
                lemma_pow2_pos((old(self).spec_height() - 1) as nat);
                vstd::arithmetic::mul::lemma_mul_is_commutative(ss as int, p0);
                vstd::arithmetic::div_mod::lemma_div_by_multiple(p0, ss as int);
                assert((cap0 as int) / (ss as int) == p0);
                assert(index / ss == cap0 / (ss as int));
                assert((p0 - 1) * (ss as int) == p0 * (ss as int) - (ss as int))
                    by (nonlinear_arith);
                // the last slot's segment is the last segment
                vstd::arithmetic::div_mod::lemma_fundamental_div_mod_converse(
                    cap0 - 1,
                    ss as int,
                    p0 - 1,
                    ss as int - 1,
                );
                assert(anchor / (ss as int) == p0 - 1);
            }
            seg_id = index / ss - 1;
            segment_pos = ss;
        } else {
            proof {
                vstd::arithmetic::div_mod::lemma_fundamental_div_mod(index as int, ss as int);
                vstd::arithmetic::div_mod::lemma_mod_division_less_than_divisor(
                    index as int,
                    ss as int,
                );
                assert((index as int) < (ss as int) * p0);
                vstd::arithmetic::div_mod::lemma_multiply_divide_lt(
                    index as int,
                    ss as int,
                    p0,
                );
                vstd::arithmetic::mul::lemma_mul_is_commutative(ss as int, seg_id as int);
            }
            seg_id = index / ss;
            segment_pos = index % ss;
        }
        proof {
            assert((seg_id + 1) * (ss as int) <= p0 * (ss as int)) by (nonlinear_arith)
                requires
                    seg_id as int + 1 <= p0,
                    ss as int >= 1,
            ;
            assert(p0 * (ss as int) == cap0) by (nonlinear_arith)
                requires
                    cap0 == (ss as int) * p0,
            ;
            assert((seg_id as int) * (ss as int) + (ss as int) == (seg_id + 1) * (ss as int))
                by (nonlinear_arith);
            vstd::arithmetic::mul::lemma_mul_is_commutative(ss as int, seg_id as int);
        }
        let mut from = seg_id * ss;
        let mut to = from + ss;
        let mut size = ss;
        let mut count = count_range(&self.v, from, to);
        let mut found = false;
        let mut density_ok = false;
        let mut depth = self.height - 1;
        let ghost mut q = seg_id as int;
        proof {
            assert(pow2(((old(self).spec_height() - 1) - depth as int) as nat) == 1);
            assert(old(self).spec_segment_size() * 1nat == old(self).spec_segment_size());
            lemma_entries_len(s0.subrange(from as int, to as int));
            lemma_entries_len(s0);
            assert(s0.subrange(0, cap0) =~= s0);
            if depth == 0 {
                assert(s0.subrange(from as int, to as int) =~= s0);
            }
        }
        if count < size {
            found = true;
            count = count + 1;
            density_ok = self.insert_density_ok(depth, count, size);
        }
        while depth > 0 && !(found && density_ok)
            invariant
                self.v@ == s0,
                self.height == old(self).height,
                self.segment_size == old(self).segment_size,
                self.segment_size_log2 == old(self).segment_size_log2,
                old(self).wf(),
                s0 == old(self).slots(),
                s0.len() == old(self).capacity(),
                1 <= old(self).spec_height() <= 64,
                depth < old(self).spec_height(),
                size == old(self).spec_segment_size() * pow2(
                    (old(self).spec_height() - 1 - depth) as nat,
                ),
                size >= 1,
                q >= 0,
                from == q * size,
                to == from + size,
                to <= s0.len(),
                from <= index <= to,
                from + segment_pos == index,
                segment_pos <= size,
                count == entries(s0.subrange(from as int, to as int)).len() + (if found {
                    1int
                } else {
                    0int
                }),
                density_ok ==> found && upper_density_ok(
                    old(self).spec_height() as int,
                    depth as int,
                    count as int,
                    size as int,
                ),
                depth == 0 ==> found,
                h0 == old(self).spec_height() as int,
                h0n == old(self).spec_height(),
                ss0n == old(self).spec_segment_size(),
                anchor == old(self).insert_anchor(index as int),
                from <= anchor < to,
                q == anchor / (size as int),
                found ==> density_ok == upper_density_ok(
                    old(self).spec_height() as int,
                    depth as int,
                    count as int,
                    size as int,
                ),
                !found ==> count == size,
                forall|dd: int|
                    depth < dd < h0n ==> old(self).window_cannot_take(anchor, dd),
            decreases depth,
        {
            proof {
                lemma_pow2_pos((old(self).spec_height() - 1 - depth) as nat);
                vstd::arithmetic::div_mod::lemma_div_by_multiple(q, size as int);
                assert((q * size) / (size as int) == q);
                assert((size as int) * (pow2(depth as nat) as int) == old(
                    self,
                ).capacity() as int) by {
                    lemma_pow2_adds((old(self).spec_height() - 1 - depth) as nat, depth as nat);
                    let ssn = old(self).spec_segment_size() as int;
                    let pa = pow2((old(self).spec_height() - 1 - depth) as nat) as int;
                    let pb = pow2(depth as nat) as int;
                    assert((ssn * pa) * pb == ssn * (pa * pb)) by (nonlinear_arith);
                }
                assert((q + 1) * (size as int) <= (size as int) * (pow2(depth as nat) as int))
                    by (nonlinear_arith)
                    requires
                        q * (size as int) + (size as int) <= (size as int) * (pow2(
                            depth as nat,
                        ) as int),
                ;
                assert(q + 1 <= pow2(depth as nat) as int) by (nonlinear_arith)
                    requires
                        (q + 1) * (size as int) <= (size as int) * (pow2(depth as nat) as int),
                        size as int >= 1,
                ;
                lemma_pow2_unfold(depth as nat);
                // this depth's window cannot take the pair
                assert(window_width(ss0n, h0n, depth as int) == size);
                assert(window_lo(ss0n, h0n, anchor, depth as int) == from);
                if !found {
                    assert(!upper_density_ok(h0, depth as int, size as int + 1, size as int))
                        by (nonlinear_arith)
                        requires
                            0 <= depth as int,
                            (depth as int) < h0,
                            size as int >= 1,
                    ;
                }
                assert(old(self).window_cannot_take(anchor, depth as int));
            }
            depth = depth - 1;
            if (from / size) % 2 == 1 {
                proof {
                    assert(q % 2 == 1);
                    assert(q * (size as int) >= 1 * (size as int)) by (nonlinear_arith)
                        requires
                            q >= 1,
                            size as int >= 0,
                    ;
                    assert((q - 1) * (size as int) == q * (size as int) - (size as int))
                        by (nonlinear_arith);
                    assert((q - 1) == 2 * ((q - 1) / 2));
                    assert(((q - 1) / 2) * (2 * (size as int)) == (q - 1) * (size as int))
                        by (nonlinear_arith)
                        requires
                            q - 1 == 2 * ((q - 1) / 2),
                    ;
                    lemma_entries_concat(
                        s0.subrange(from - size, from as int),
                        s0.subrange(from as int, to as int),
                    );
                    assert(s0.subrange(from - size, to as int) =~= s0.subrange(
                        from - size,
                        from as int,
                    ) + s0.subrange(from as int, to as int));
                    lemma_entries_len(s0.subrange(from - size, from as int));
                    lemma_entries_len(s0.subrange(from as int, to as int));
                }
                let c2 = count_range(&self.v, from - size, from);
                count = count + c2;
                segment_pos = segment_pos + size;
                from = from - size;
                proof {
                    vstd::arithmetic::div_mod::lemma_div_denominator(anchor, size as int, 2);
                    q = (q - 1) / 2;
                    assert(q == anchor / (2 * (size as int)));
                }
            } else {
                proof {
                    assert(q % 2 == 0);
                    assert(q + 1 != pow2((depth + 1) as nat) as int);
                    assert(q + 2 <= pow2((depth + 1) as nat) as int);
                    assert((q + 2) * (size as int) <= (size as int) * (pow2(
                        (depth + 1) as nat,
                    ) as int)) by (nonlinear_arith)
                        requires
                            q + 2 <= pow2((depth + 1) as nat) as int,
                            size as int >= 0,
                    ;
                    assert((q + 2) * (size as int) == q * (size as int) + 2 * (size as int))
                        by (nonlinear_arith);
                    assert((q / 2) * (2 * (size as int)) == q * (size as int))
                        by (nonlinear_arith)
                        requires
                            q == 2 * (q / 2),
                    ;
                    assert(((q / 2) + 1) * (2 * (size as int)) == q * (size as int) + 2 * (
                    size as int)) by (nonlinear_arith)
                        requires
                            q == 2 * (q / 2),
                    ;
                    lemma_entries_concat(
                        s0.subrange(from as int, to as int),
                        s0.subrange(to as int, to + size),
                    );
                    assert(s0.subrange(from as int, to + size) =~= s0.subrange(
                        from as int,
                        to as int,
                    ) + s0.subrange(to as int, to + size));
                    lemma_entries_len(s0.subrange(to as int, to + size));
                    lemma_entries_len(s0.subrange(from as int, to as int));
                }
                let c2 = count_range(&self.v, to, to + size);
                count = count + c2;
                to = to + size;
                proof {
                    vstd::arithmetic::div_mod::lemma_div_denominator(anchor, size as int, 2);
                    q = q / 2;
                    assert(q == anchor / (2 * (size as int)));
                }
            }
            proof {
                lemma_pow2_unfold((old(self).spec_height() - 1 - depth) as nat);
                let ssn = old(self).spec_segment_size() as int;
                let pa = pow2((old(self).spec_height() - 1 - depth) as nat) as int;
                let pb = pow2((old(self).spec_height() - 1 - (depth + 1)) as nat) as int;
                assert(ssn * pa == 2 * (ssn * pb)) by (nonlinear_arith)
                    requires
                        pa == 2 * pb,
                ;
            }
            size = size * 2;
            proof {
                if depth == 0 {
                    assert(q == 0) by (nonlinear_arith)
                        requires
                            q >= 0,
                            q * (size as int) + (size as int) <= size as int,
                            size as int >= 1,
                    ;
                    assert(s0.subrange(from as int, to as int) =~= s0);
                    lemma_entries_len(s0);
                }
            }
            if !found && count < size {
                found = true;
                count = count + 1;
            }
            if found {
                density_ok = self.insert_density_ok(depth, count, size);
            }
        }
        proof {
            assert(found);
        }
        if density_ok {
            proof {
                assert((count as int) * (4 * h0) <= (size as int) * (3 * h0 + depth as int));
                assert((count as int) < size as int) by (nonlinear_arith)
                    requires
                        (count as int) * (4 * h0) <= (size as int) * (3 * h0 + depth as int),
                        0 <= depth as int,
                        (depth as int) < h0,
                        1 <= h0,
                        size as int >= 1,
                        count as int >= 0,
                ;
            }
            self.window_insert(from, to, index, kv, count);
            proof {
                let d = depth as int;
                assert(window_width(ss0n, h0n, d) == to - from);
                assert(window_lo(ss0n, h0n, anchor, d) == from);
                assert(0 <= d < old(self).spec_height() && from as int == window_lo(
                    ss0n,
                    h0n,
                    anchor,
                    d,
                ) && to - from == window_width(ss0n, h0n, d) && upper_density_ok(
                    old(self).spec_height() as int,
                    d,
                    entries(self.slots().subrange(from as int, to as int)).len() as int,
                    to - from,
                ) && (forall|dd: int|
                    d < dd < h0n ==> old(self).window_cannot_take(anchor, dd)));
            }
            return (None, Some((from, to)));
        }
        // even the root window is too dense: double the array
        proof {
            assert(q == 0) by (nonlinear_arith)
                requires
                    q >= 0,
                    q * (size as int) + (size as int) <= size as int,
                    size as int >= 1,
            ;
            assert(size == old(self).capacity()) by {
                lemma_pow2_adds(
                    old(self).spec_segment_size_log2(),
                    (old(self).spec_height() - 1) as nat,
                );
            }
            assert(s0.subrange(0, cap0) =~= s0);
            // the root window failed as well
            assert(window_width(ss0n, h0n, 0) == size);
            assert(window_lo(ss0n, h0n, anchor, 0) == from);
            assert(old(self).window_cannot_take(anchor, 0));
            assert(forall|dd: int| 0 <= dd < h0n ==> old(self).window_cannot_take(anchor, dd));
        }
        self.grow_insert(index, kv, count);
        return (None, None);
    }

    /// Overwrites the value of the pair at `index`, whose key equals the
    /// new pair's, and returns the old value with the slot's leaf window.
    #[verifier::rlimit(100)]
    fn replace_at(&mut self, index: usize, kv: (usize, usize)) -> (r: (usize, (usize, usize)))
        requires
            old(self).wf(),
            index < old(self).capacity(),
            old(self).slots()[index as int] is Some,
            (old(self).slots()[index as int]->0).0 == kv.0,
        ensures
            final(self).wf(),
            r.0 == (old(self).slots()[index as int]->0).1,
            final(self).slots() == old(self).slots().update(index as int, Some(kv)),
            final(self).entry_seq() == old(self).entry_seq().update(
                rank(old(self).slots(), index as int),
                kv,
            ),
            r.1.0 == old(self).spec_segment_size() * (index as int / old(
                self,
            ).spec_segment_size() as int),
            r.1.1 == r.1.0 + old(self).spec_segment_size(),
            r.1.0 <= r.1.1 <= old(self).capacity(),
            final(self).capacity() == old(self).capacity(),
            final(self).spec_height() == old(self).spec_height(),
            final(self).spec_segment_size() == old(self).spec_segment_size(),
            forall|m: int|
                0 <= m < final(self).capacity() && !(r.1.0 <= m < r.1.1) ==> final(self).slots()[m]
                    == old(self).slots()[m],
    {
        proof {
            old(self).lemma_capacity_pow2();
            lemma_pow2_pos(old(self).spec_segment_size_log2());
            lemma_pow2_pos((old(self).spec_height() - 1) as nat);
        }
        let ghost s0 = old(self).slots();
        let ghost cap0 = old(self).capacity() as int;
        let ghost p0 = pow2((old(self).spec_height() - 1) as nat) as int;
        let ss = self.segment_size;
        let slot = self.v[index];
        let (_, v0) = slot.unwrap();
        self.v.set(index, Some(kv));
        let seg_id = index / ss;
        proof {
            vstd::arithmetic::div_mod::lemma_fundamental_div_mod(index as int, ss as int);
            vstd::arithmetic::div_mod::lemma_mod_division_less_than_divisor(
                index as int,
                ss as int,
            );
            assert((index as int) < (ss as int) * p0);
            vstd::arithmetic::div_mod::lemma_multiply_divide_lt(index as int, ss as int, p0);
            assert((seg_id + 1) * (ss as int) <= p0 * (ss as int)) by (nonlinear_arith)
                requires
                    seg_id as int + 1 <= p0,
                    ss as int >= 1,
            ;
            assert(p0 * (ss as int) == cap0) by (nonlinear_arith)
                requires
                    cap0 == (ss as int) * p0,
            ;
            assert((seg_id as int) * (ss as int) + (ss as int) == (seg_id + 1) * (ss as int))
                by (nonlinear_arith);
            vstd::arithmetic::mul::lemma_mul_is_commutative(ss as int, seg_id as int);
        }
        let f = seg_id * ss;
        let t = f + ss;
        proof {
            let p = rank(s0, index as int);
            crate::slots::lemma_rank(s0, index as int);
            lemma_entries_around(s0, index as int);
            lemma_entries_around(self.v@, index as int);
            assert(self.v@.subrange(0, index as int) =~= s0.subrange(0, index as int));
            assert(self.v@.subrange(index + 1, cap0) =~= s0.subrange(index + 1, cap0));
            let pre = entries(s0.subrange(0, index as int));
            let post = entries(s0.subrange(index + 1, cap0));
            assert(p == pre.len()) by {
                assert(rank(s0, index as int) == entries(s0.subrange(0, index as int)).len());
            }
            assert(entries(self.v@) =~= pre + seq![kv] + post);
            assert(entries(s0).update(p, kv) =~= pre + seq![kv] + post);
            assert forall|a: int, b: int|
                0 <= a < b < entries(self.v@).len() implies entries(self.v@)[a].0 < entries(
                self.v@,
            )[b].0 by {
                assert(entries(self.v@)[a].0 == entries(s0)[a].0);
                assert(entries(self.v@)[b].0 == entries(s0)[b].0);
            }
        }
        (v0, (f, t))
    }

    /// Inserts `kv` at slot position `index` inside the window
    /// `[from, to)`, which has room to spare, and redistributes the window.
    #[verifier::rlimit(100)]
    fn window_insert(&mut self, from: usize, to: usize, index: usize, kv: (usize, usize), count: usize)
        requires
            old(self).wf(),
            from <= index <= to,
            to <= old(self).capacity(),
            count == entries(old(self).slots().subrange(from as int, to as int)).len() + 1,
            count < to - from,
            forall|j: int|
                occupied(old(self).slots(), j) && j < index ==> key_at(old(self).slots(), j)
                    < kv.0,
            forall|j: int|
                occupied(old(self).slots(), j) && j >= index ==> key_at(old(self).slots(), j)
                    >= kv.0,
            forall|j: int| occupied(old(self).slots(), j) ==> key_at(old(self).slots(), j) != kv.0,
        ensures
            final(self).wf(),
            final(self).capacity() == old(self).capacity(),
            final(self).spec_height() == old(self).spec_height(),
            final(self).spec_segment_size() == old(self).spec_segment_size(),
            final(self).entry_seq() == entries(old(self).slots().subrange(0, index as int))
                + seq![kv] + entries(
                old(self).slots().subrange(index as int, old(self).capacity() as int),
            ),
            entries(final(self).slots().subrange(from as int, to as int)).len() == count,
            final(self).slots().subrange(from as int, to as int) == crate::segment::spread(
                entries(final(self).slots().subrange(from as int, to as int)),
                to - from,
            ),
            forall|m: int|
                0 <= m < final(self).capacity() && !(from <= m < to) ==> final(self).slots()[m]
                    == old(self).slots()[m],
    {
        let ghost s0 = old(self).slots();
        let ghost cap0 = old(self).capacity() as int;
        proof {
            // the window's entries split at the insertion point
            assert(s0.subrange(from as int, to as int) =~= s0.subrange(from as int, index as int)
                + s0.subrange(index as int, to as int));
            lemma_entries_concat(
                s0.subrange(from as int, index as int),
                s0.subrange(index as int, to as int),
            );
            // the array's entries split at the window and the insertion point
            assert(s0.subrange(0, index as int) =~= s0.subrange(0, from as int) + s0.subrange(
                from as int,
                index as int,
            ));
            lemma_entries_concat(
                s0.subrange(0, from as int),
                s0.subrange(from as int, index as int),
            );
            assert(s0.subrange(index as int, cap0) =~= s0.subrange(index as int, to as int)
                + s0.subrange(to as int, cap0));
            lemma_entries_concat(
                s0.subrange(index as int, to as int),
                s0.subrange(to as int, cap0),
            );
            lemma_entries_len(s0.subrange(0, from as int));
            lemma_entries_len(s0.subrange(to as int, cap0));
        }
        insert_key_value(&mut self.v, from, to, index, kv);
        let ghost v1 = self.v@;
        proof {
            lemma_entries_len(v1.subrange(from as int, to as int));
        }
        shuffle_key_values(&mut self.v, from, to, count, true);
        proof {
            lemma_entries_outside_preserved(v1, self.v@, from as int, to as int);
            lemma_entries_split3(self.v@, from as int, to as int);
            lemma_entries_split3(v1, from as int, to as int);
            assert(v1.subrange(0, from as int) =~= s0.subrange(0, from as int));
            assert(v1.subrange(to as int, cap0) =~= s0.subrange(to as int, cap0));
            assert(self.entry_seq() =~= entries(s0.subrange(0, index as int)) + seq![kv]
                + entries(s0.subrange(index as int, cap0)));
            lemma_insert_sorted(s0, index as int, kv);
            lemma_entries_len(self.v@.subrange(0, from as int));
            lemma_entries_len(self.v@.subrange(to as int, cap0));
        }
    }

    /// Doubles the array and inserts `kv` at its sorted position; the
    /// caller has found every window over-full.
    #[verifier::rlimit(100)]
    fn grow_insert(&mut self, index: usize, kv: (usize, usize), count: usize)
        requires
            old(self).wf(),
            index <= old(self).capacity(),
            2 * old(self).capacity() <= usize::MAX,
            count == entries(old(self).slots()).len() + 1,
            forall|j: int|
                occupied(old(self).slots(), j) && j < index ==> key_at(old(self).slots(), j)
                    < kv.0,
            forall|j: int|
                occupied(old(self).slots(), j) && j >= index ==> key_at(old(self).slots(), j)
                    >= kv.0,
            forall|j: int| occupied(old(self).slots(), j) ==> key_at(old(self).slots(), j) != kv.0,
        ensures
            final(self).wf(),
            final(self).capacity() == 2 * old(self).capacity(),
            final(self).entry_seq() == entries(old(self).slots().subrange(0, index as int))
                + seq![kv] + entries(
                old(self).slots().subrange(index as int, old(self).capacity() as int),
            ),
            old(self).spec_height() - 1 == old(self).spec_segment_size_log2()
                ==> final(self).spec_height() == old(self).spec_height() + 1
                && final(self).spec_segment_size() == old(self).spec_segment_size(),
            old(self).spec_height() - 1 != old(self).spec_segment_size_log2()
                ==> final(self).spec_height() == old(self).spec_height()
                && final(self).spec_segment_size() == 2 * old(self).spec_segment_size(),
            final(self).slots() == crate::segment::spread(
                final(self).entry_seq(),
                final(self).capacity() as int,
            ),
    {
        proof {
            old(self).lemma_height_bound();
            old(self).lemma_capacity_pow2();
            vstd::arithmetic::power2::lemma2_to64();
            lemma_entries_len(old(self).slots());
        }
        let ghost s0 = old(self).slots();
        let ghost cap0 = old(self).capacity() as int;
        let oldcap = self.v.len();
        let newcap = oldcap * 2;
        while self.v.len() < newcap
            invariant
                oldcap <= self.v@.len() <= newcap,
                self.v@.subrange(0, oldcap as int) == s0,
                s0.len() == oldcap,
                forall|m: int| oldcap <= m < self.v@.len() ==> self.v@[m] is None,
                self.height == old(self).height,
                self.segment_size == old(self).segment_size,
                self.segment_size_log2 == old(self).segment_size_log2,
            decreases newcap - self.v@.len(),
        {
            self.v.push(None);
            proof {
                assert(self.v@.subrange(0, oldcap as int) =~= s0);
            }
        }
        proof {
            lemma_pow2_le(
                old(self).spec_segment_size_log2(),
                (old(self).spec_segment_size_log2() + old(self).spec_height() - 1) as nat,
            );
            assert(s0 =~= s0.subrange(0, index as int) + s0.subrange(index as int, cap0));
            lemma_entries_concat(
                s0.subrange(0, index as int),
                s0.subrange(index as int, cap0),
            );
        }
        if self.height - 1 == self.segment_size_log2 {
            self.height = self.height + 1;
        } else {
            proof {
                lemma_pow2_unfold((old(self).spec_segment_size_log2() + 1) as nat);
            }
            self.segment_size_log2 = self.segment_size_log2 + 1;
            self.segment_size = self.segment_size * 2;
        }
        proof {
            assert(self.v@ =~= s0 + self.v@.subrange(cap0, newcap as int));
            lemma_entries_concat(s0, self.v@.subrange(cap0, newcap as int));
            crate::slots::lemma_entries_all_none(self.v@.subrange(cap0, newcap as int));
            assert(entries(self.v@) =~= entries(s0));
            assert(entries(self.v@.subrange(0, newcap as int)) == entries(self.v@)) by {
                assert(self.v@.subrange(0, newcap as int) =~= self.v@);
            }
            assert(s0.subrange(0, cap0) =~= s0);
            // the entries left and right of index are unchanged by padding
            assert(self.v@.subrange(0, index as int) =~= s0.subrange(0, index as int));
            assert(self.v@.subrange(index as int, newcap as int) =~= s0.subrange(
                index as int,
                cap0,
            ) + self.v@.subrange(cap0, newcap as int));
            lemma_entries_concat(
                s0.subrange(index as int, cap0),
                self.v@.subrange(cap0, newcap as int),
            );
        }
        let ghost v1 = self.v@;
        insert_key_value(&mut self.v, 0, newcap, index, kv);
        let ghost v2 = self.v@;
        proof {
            assert(v2.subrange(0, newcap as int) =~= v2);
            assert(v1.subrange(0, index as int) =~= s0.subrange(0, index as int));
            lemma_entries_len(v2.subrange(0, newcap as int));
        }
        shuffle_key_values(&mut self.v, 0, newcap, count, true);
        proof {
            assert(self.v@.subrange(0, newcap as int) =~= self.v@);
            assert(self.entry_seq() =~= entries(s0.subrange(0, index as int)) + seq![kv]
                + entries(s0.subrange(index as int, cap0)));
            lemma_insert_sorted(s0, index as int, kv);
            lemma_pow2_adds(
                self.spec_segment_size_log2(),
                (self.spec_height() - 1) as nat,
            );
            lemma_pow2_unfold((old(self).spec_height()) as nat);
            let ssn = old(self).spec_segment_size() as int;
            let pa = pow2((old(self).spec_height() - 1) as nat) as int;
            assert(ssn * (2 * pa) == 2 * (ssn * pa)) by (nonlinear_arith);
            assert((2 * ssn) * pa == 2 * (ssn * pa)) by (nonlinear_arith);
        }
    }
}

/// Inserting a fresh key at its sorted slot position keeps the entry
/// sequence sorted.
proof fn lemma_insert_sorted(s0: Seq<Slot>, index: int, kv: (usize, usize))
    requires
        0 <= index <= s0.len(),
        sorted_entries(entries(s0)),
        forall|j: int| occupied(s0, j) && j < index ==> key_at(s0, j) < kv.0,
        forall|j: int| occupied(s0, j) && j >= index ==> key_at(s0, j) >= kv.0,
        forall|j: int| occupied(s0, j) ==> key_at(s0, j) != kv.0,
    ensures
        sorted_entries(
            entries(s0.subrange(0, index)) + seq![kv] + entries(
                s0.subrange(index, s0.len() as int),
            ),
        ),
{
    let a = entries(s0.subrange(0, index));
    let b = entries(s0.subrange(index, s0.len() as int));
    assert(s0 =~= s0.subrange(0, index) + s0.subrange(index, s0.len() as int));
    lemma_entries_concat(s0.subrange(0, index), s0.subrange(index, s0.len() as int));
    lemma_sorted_concat(a, b);
    assert forall|p: int| 0 <= p < a.len() implies a[p].0 < kv.0 by {
        lemma_entry_source(s0.subrange(0, index), p);
        let j = choose|j: int|
            occupied(s0.subrange(0, index), j) && rank(s0.subrange(0, index), j) == p
                && s0.subrange(0, index)[j]->0 == a[p];
        assert(s0[j] == s0.subrange(0, index)[j]);
        assert(occupied(s0, j) && j < index);
        assert(key_at(s0, j) == a[p].0);
    }
    assert forall|p: int| 0 <= p < b.len() implies kv.0 < b[p].0 by {
        lemma_entry_source(s0.subrange(index, s0.len() as int), p);
        let j = choose|j: int|
            occupied(s0.subrange(index, s0.len() as int), j) && rank(
                s0.subrange(index, s0.len() as int),
                j,
            ) == p && s0.subrange(index, s0.len() as int)[j]->0 == b[p];
        assert(s0[index + j] == s0.subrange(index, s0.len() as int)[j]);
        assert(occupied(s0, index + j) && index + j >= index);
        assert(key_at(s0, index + j) == b[p].0);
    }
    lemma_sorted_concat(a, seq![kv]);
    lemma_sorted_concat(a + seq![kv], b);
    assert forall|x: int, y: int|
        0 <= x < (a + seq![kv]).len() && 0 <= y < b.len() implies (a + seq![kv])[x].0
        < b[y].0 by {
        if x < a.len() {
            assert((a + seq![kv])[x] == a[x]);
        } else {
            assert((a + seq![kv])[x] == kv);
        }
    }
}

} // verus!
