//! The van Emde Boas layout: the position that each node of a complete
//! binary tree takes in the node array.  A tree of height `h` splits into a
//! top tree and `2^h1` bottom trees, the top block written first; trees of
//! height below three stay in level order.  The position function is a
//! permutation of the breadth-first ids `1 .. 2^h`.

use vstd::prelude::*;

verus! {

use vstd::arithmetic::power2::pow2;
use vstd::arithmetic::power2::lemma_pow2_adds;
use vstd::arithmetic::power2::lemma_pow2_pos;
use vstd::arithmetic::power2::lemma_pow2_strictly_increases;
use vstd::arithmetic::div_mod::lemma_div_is_ordered;
use vstd::arithmetic::div_mod::lemma_div_by_multiple;
use vstd::arithmetic::div_mod::lemma_multiply_divide_lt;
use vstd::arithmetic::div_mod::lemma_mod_division_less_than_divisor;
use vstd::arithmetic::div_mod::lemma_fundamental_div_mod;
use vstd::set_lib::set_int_range;
use vstd::set_lib::lemma_int_range;
use vstd::set_lib::lemma_map_size;
use vstd::set_lib::lemma_len_subset;

pub proof fn lemma_pow2_le(a: nat, b: nat)
    requires
        a <= b,
    ensures
        pow2(a) <= pow2(b),
{
    if a < b {
        lemma_pow2_strictly_increases(a, b);
    }
}

/// pow2(e) > e: a height whose node count fits in a machine word is itself
/// far below the word's maximum.
pub proof fn lemma_pow2_above(e: nat)
    ensures
        pow2(e) > e,
    decreases e,
{
    if e == 0 {
        vstd::arithmetic::power2::lemma2_to64();
    } else {
        lemma_pow2_above((e - 1) as nat);
        vstd::arithmetic::power2::lemma_pow2_unfold(e);
    }
}

/// The least power of two at or above `x` (and 1 for `x <= 1`).
pub open spec fn ceil_pow2(x: nat) -> nat
    decreases x,
{
    if x <= 1 {
        1
    } else {
        2 * ceil_pow2((x + 1) / 2)
    }
}

pub proof fn lemma_ceil_pow2(x: nat)
    ensures
        1 <= ceil_pow2(x),
        x <= ceil_pow2(x),
        x >= 2 ==> ceil_pow2(x) % 2 == 0 && ceil_pow2(x) / 2 < x,
    decreases x,
{
    if x >= 2 {
        let half = (x + 1) / 2;
        lemma_ceil_pow2(half);
        if half >= 2 {
            if x % 2 == 0 {
                assert(2 * half == x);
            } else {
                assert(2 * half == x + 1);
                assert(ceil_pow2(half) % 2 == 0);
                assert(ceil_pow2(half) != x);
            }
        }
    }
}

/// The number of binary digits of `n`.
pub open spec fn bit_len(n: nat) -> nat
    decreases n,
{
    if n == 0 {
        0
    } else {
        1 + bit_len(n / 2)
    }
}

pub proof fn lemma_bit_len(n: nat)
    requires
        n >= 1,
    ensures
        bit_len(n) >= 1,
        pow2((bit_len(n) - 1) as nat) <= n < pow2(bit_len(n)),
    decreases n,
{
    if n == 1 {
        vstd::arithmetic::power2::lemma2_to64();
        assert(bit_len(1) == 1 + bit_len(0));
    } else {
        lemma_bit_len(n / 2);
        let b = bit_len(n / 2);
        assert(bit_len(n) == 1 + b);
        vstd::arithmetic::power2::lemma_pow2_unfold(b + 1);
        vstd::arithmetic::power2::lemma_pow2_unfold(b);
        assert(pow2(b) == 2 * pow2((b - 1) as nat));
        assert(n >= 2 * (n / 2));
        assert(n >= 2 * pow2((b - 1) as nat));
        assert(pow2((bit_len(n) - 1) as nat) == pow2(b));
        assert(n <= 2 * (n / 2) + 1);
        assert(n < 2 * pow2(b));
    }
}

/// Binary digit counts are determined by the power-of-two window.
pub proof fn lemma_bit_len_unique(n: nat, d: nat)
    requires
        n >= 1,
        d >= 1,
        pow2((d - 1) as nat) <= n < pow2(d),
    ensures
        bit_len(n) == d,
{
    lemma_bit_len(n);
    let b = bit_len(n);
    if b < d {
        lemma_pow2_le(b, (d - 1) as nat);
        assert(false);
    }
    if b > d {
        lemma_pow2_le(d, (b - 1) as nat);
        assert(false);
    }
}

/// The height of the bottom trees when a tree of height `h >= 3` is split.
pub open spec fn bottom_height(h: nat) -> nat {
    ceil_pow2((h + 1) / 2)
}

pub proof fn lemma_bottom_height(h: nat)
    requires
        h >= 3,
    ensures
        2 <= bottom_height(h),
        bottom_height(h) <= h - 1,
{
    let c = (h + 1) / 2;
    lemma_ceil_pow2(c);
    let b = bottom_height(h);
    assert(b % 2 == 0 && b / 2 < c);
    assert(b <= 2 * c - 2);
}

/// The one-based position of node `n` (of binary digit count `d`) in the
/// van Emde Boas array of a complete tree of height `h`.
pub open spec fn veb_pos(n: nat, d: nat, h: nat) -> nat
    decreases h,
    via veb_pos_decreases
{
    if h < 3 {
        n
    } else {
        let h2 = bottom_height(h);
        let h1 = (h - h2) as nat;
        if d <= h1 {
            veb_pos(n, d, h1)
        } else {
            let d1 = (d - h1 - 1) as nat;
            let s = (n / pow2(d1) - pow2(h1)) as nat;
            ((pow2(h1) - 1) + (pow2(h2) - 1) * s + veb_pos(
                pow2(d1) + n % pow2(d1),
                (d - h1) as nat,
                h2,
            )) as nat
        }
    }
}

#[via_fn]
proof fn veb_pos_decreases(n: nat, d: nat, h: nat) {
    if h >= 3 {
        lemma_bottom_height(h);
    }
}

/// Splits `n` into its bottom-subtree number and its id inside the bottom
/// subtree, and bounds both.
pub proof fn lemma_pow2_div_range(n: nat, d: nat, c: nat)
    requires
        d >= 1,
        c < d,
        pow2((d - 1) as nat) <= n < pow2(d),
    ensures
        pow2((d - 1 - c) as nat) <= n / pow2(c) < pow2((d - c) as nat),
        n % pow2(c) < pow2(c),
        pow2(c) <= pow2(c) + n % pow2(c) < pow2((c + 1) as nat),
        n == pow2(c) * (n / pow2(c)) + n % pow2(c),
{
    lemma_pow2_pos(c);
    let p = pow2(c) as int;
    lemma_pow2_adds((d - 1 - c) as nat, c);
    assert(pow2((d - 1) as nat) == pow2((d - 1 - c) as nat) * pow2(c));
    lemma_div_is_ordered(pow2((d - 1) as nat) as int, n as int, p);
    lemma_div_by_multiple(pow2((d - 1 - c) as nat) as int, p);
    lemma_pow2_adds((d - c) as nat, c);
    assert((n as int) < p * (pow2((d - c) as nat) as int)) by {
        vstd::arithmetic::mul::lemma_mul_is_commutative(p, pow2((d - c) as nat) as int);
    }
    lemma_multiply_divide_lt(n as int, p, pow2((d - c) as nat) as int);
    lemma_mod_division_less_than_divisor(n as int, p);
    lemma_fundamental_div_mod(n as int, p);
    vstd::arithmetic::power2::lemma_pow2_unfold((c + 1) as nat);
}

pub proof fn lemma_veb_pos_range(n: nat, d: nat, h: nat)
    requires
        1 <= d <= h,
        pow2((d - 1) as nat) <= n < pow2(d),
    ensures
        1 <= veb_pos(n, d, h) <= pow2(h) - 1,
    decreases h,
{
    lemma_pow2_pos((d - 1) as nat);
    if h < 3 {
        lemma_pow2_le(d, h);
    } else {
        lemma_bottom_height(h);
        let h2 = bottom_height(h);
        let h1 = (h - h2) as nat;
        lemma_pow2_adds(h1, h2);
        lemma_pow2_pos(h1);
        lemma_pow2_pos(h2);
        let a = pow2(h1) as int;
        let b = pow2(h2) as int;
        if d <= h1 {
            lemma_veb_pos_range(n, d, h1);
            assert(pow2(h1) <= pow2(h)) by {
                vstd::arithmetic::mul::lemma_mul_ordering(a, b);
            }
        } else {
            let d1 = (d - h1 - 1) as nat;
            lemma_pow2_div_range(n, d, d1);
            assert(pow2((d - 1 - d1) as nat) == pow2(h1));
            assert(pow2((d - d1) as nat) == pow2((h1 + 1) as nat));
            vstd::arithmetic::power2::lemma_pow2_unfold((h1 + 1) as nat);
            let s = (n / pow2(d1) - pow2(h1)) as nat;
            assert(s < pow2(h1));
            let nn = (pow2(d1) + n % pow2(d1)) as nat;
            let dd = (d - h1) as nat;
            assert(pow2((dd - 1) as nat) <= nn < pow2(dd)) by {
                vstd::arithmetic::power2::lemma_pow2_unfold(dd);
            }
            lemma_veb_pos_range(nn, dd, h2);
            let r = veb_pos(nn, dd, h2) as int;
            assert((a - 1) + (b - 1) * (s as int) + r <= a * b - 1) by (nonlinear_arith)
                requires
                    0 <= s as int <= a - 1,
                    1 <= r <= b - 1,
                    a >= 1,
                    b >= 1,
            ;
            assert((b - 1) * (s as int) >= 0) by (nonlinear_arith)
                requires
                    b >= 1,
                    s as int >= 0,
            ;
        }
    }
}

pub proof fn lemma_veb_pos_injective(n1: nat, d1: nat, n2: nat, d2: nat, h: nat)
    requires
        1 <= d1 <= h,
        pow2((d1 - 1) as nat) <= n1 < pow2(d1),
        1 <= d2 <= h,
        pow2((d2 - 1) as nat) <= n2 < pow2(d2),
        n1 != n2,
    ensures
        veb_pos(n1, d1, h) != veb_pos(n2, d2, h),
    decreases h,
{
    lemma_pow2_pos((d1 - 1) as nat);
    lemma_pow2_pos((d2 - 1) as nat);
    if h < 3 {
    } else {
        lemma_bottom_height(h);
        let h2 = bottom_height(h);
        let h1 = (h - h2) as nat;
        lemma_pow2_pos(h1);
        lemma_pow2_pos(h2);
        let a = pow2(h1) as int;
        let b = pow2(h2) as int;
        if d1 <= h1 && d2 <= h1 {
            lemma_veb_pos_injective(n1, d1, n2, d2, h1);
        } else if d1 <= h1 && d2 > h1 {
            lemma_veb_top_below_bottom(n1, d1, n2, d2, h);
        } else if d2 <= h1 && d1 > h1 {
            lemma_veb_top_below_bottom(n2, d2, n1, d1, h);
        } else {
            let c1 = (d1 - h1 - 1) as nat;
            let c2 = (d2 - h1 - 1) as nat;
            lemma_pow2_div_range(n1, d1, c1);
            lemma_pow2_div_range(n2, d2, c2);
            assert(pow2((d1 - 1 - c1) as nat) == pow2(h1));
            assert(pow2((d1 - c1) as nat) == pow2((h1 + 1) as nat));
            assert(pow2((d2 - 1 - c2) as nat) == pow2(h1));
            assert(pow2((d2 - c2) as nat) == pow2((h1 + 1) as nat));
            vstd::arithmetic::power2::lemma_pow2_unfold((h1 + 1) as nat);
            let s1 = (n1 / pow2(c1) - pow2(h1)) as nat;
            let s2 = (n2 / pow2(c2) - pow2(h1)) as nat;
            let m1 = (pow2(c1) + n1 % pow2(c1)) as nat;
            let m2 = (pow2(c2) + n2 % pow2(c2)) as nat;
            let e1 = (d1 - h1) as nat;
            let e2 = (d2 - h1) as nat;
            assert(pow2((e1 - 1) as nat) <= m1 < pow2(e1)) by {
                vstd::arithmetic::power2::lemma_pow2_unfold(e1);
            }
            assert(pow2((e2 - 1) as nat) <= m2 < pow2(e2)) by {
                vstd::arithmetic::power2::lemma_pow2_unfold(e2);
            }
            lemma_veb_pos_range(m1, e1, h2);
            lemma_veb_pos_range(m2, e2, h2);
            let r1 = veb_pos(m1, e1, h2) as int;
            let r2 = veb_pos(m2, e2, h2) as int;
            if s1 != s2 {
                assert((b - 1) * (s1 as int) + r1 != (b - 1) * (s2 as int) + r2)
                    by (nonlinear_arith)
                    requires
                        s1 as int != s2 as int,
                        s1 >= 0,
                        s2 >= 0,
                        1 <= r1 <= b - 1,
                        1 <= r2 <= b - 1,
                        b >= 2,
                ;
                assert(b >= 2) by {
                    lemma_pow2_le(1, h2);
                    vstd::arithmetic::power2::lemma2_to64();
                }
            } else {
                if m1 == m2 {
                    if c1 != c2 {
                        if c1 < c2 {
                            lemma_pow2_le((c1 + 1) as nat, c2);
                        } else {
                            lemma_pow2_le((c2 + 1) as nat, c1);
                        }
                        assert(false);
                    }
                    assert(n1 % pow2(c1) == n2 % pow2(c1));
                    assert(n1 / pow2(c1) == n2 / pow2(c1));
                    assert(false);
                }
                lemma_veb_pos_injective(m1, e1, m2, e2, h2);
            }
        }
    }
}

/// A node of the top tree stands strictly before every bottom-tree node.
proof fn lemma_veb_top_below_bottom(nt: nat, dt: nat, nb: nat, db: nat, h: nat)
    requires
        h >= 3,
        1 <= dt <= (h - bottom_height(h)) as nat,
        pow2((dt - 1) as nat) <= nt < pow2(dt),
        ((h - bottom_height(h)) as nat) < db,
        db <= h,
        pow2((db - 1) as nat) <= nb < pow2(db),
    ensures
        veb_pos(nt, dt, h) < veb_pos(nb, db, h),
{
    lemma_bottom_height(h);
    let h2 = bottom_height(h);
    let h1 = (h - h2) as nat;
    lemma_pow2_pos(h1);
    lemma_pow2_pos(h2);
    let a = pow2(h1) as int;
    let b = pow2(h2) as int;
    lemma_veb_pos_range(nt, dt, h1);
    let c = (db - h1 - 1) as nat;
    lemma_pow2_div_range(nb, db, c);
    assert(pow2((db - 1 - c) as nat) == pow2(h1));
    let s = (nb / pow2(c) - pow2(h1)) as nat;
    let m = (pow2(c) + nb % pow2(c)) as nat;
    let e = (db - h1) as nat;
    assert(pow2((e - 1) as nat) <= m < pow2(e)) by {
        vstd::arithmetic::power2::lemma_pow2_unfold(e);
    }
    lemma_veb_pos_range(m, e, h2);
    assert((b - 1) * (s as int) >= 0) by (nonlinear_arith)
        requires
            b >= 1,
            s as int >= 0,
    ;
}

/// The position of node `n` in the array: `veb_pos` at the digit count of
/// `n` itself.
pub open spec fn veb_position(n: nat, h: nat) -> nat {
    veb_pos(n, bit_len(n), h)
}

pub proof fn lemma_veb_position_range(n: nat, h: nat)
    requires
        1 <= n < pow2(h),
    ensures
        1 <= veb_position(n, h) <= pow2(h) - 1,
{
    lemma_bit_len(n);
    if bit_len(n) > h {
        lemma_pow2_le(h, (bit_len(n) - 1) as nat);
        assert(false);
    }
    lemma_veb_pos_range(n, bit_len(n), h);
}

pub proof fn lemma_veb_position_injective(n1: nat, n2: nat, h: nat)
    requires
        1 <= n1 < pow2(h),
        1 <= n2 < pow2(h),
        n1 != n2,
    ensures
        veb_position(n1, h) != veb_position(n2, h),
{
    lemma_bit_len(n1);
    lemma_bit_len(n2);
    if bit_len(n1) > h {
        lemma_pow2_le(h, (bit_len(n1) - 1) as nat);
        assert(false);
    }
    if bit_len(n2) > h {
        lemma_pow2_le(h, (bit_len(n2) - 1) as nat);
        assert(false);
    }
    lemma_veb_pos_injective(n1, bit_len(n1), n2, bit_len(n2), h);
}

/// The van Emde Boas positions of the node ids `1 .. 2^h` are exactly the
/// ids `1 .. 2^h` again: the layout is a permutation of the id range.
pub proof fn lemma_veb_position_permutation(h: nat)
    ensures
        set_int_range(1, pow2(h) as int).map(|n: int| veb_position(n as nat, h) as int)
            == set_int_range(1, pow2(h) as int),
{
    let ids = set_int_range(1, pow2(h) as int);
    let f = |n: int| veb_position(n as nat, h) as int;
    let image = ids.map(f);
    lemma_pow2_pos(h);
    lemma_int_range(1, pow2(h) as int);
    assert(vstd::relations::injective_on(f, ids)) by {
        assert forall|x: int, y: int| ids.contains(x) && ids.contains(y) && #[trigger] f(x)
            == #[trigger] f(y) implies x == y by {
            if x != y {
                lemma_veb_position_injective(x as nat, y as nat, h);
            }
        }
    }
    lemma_map_size(ids, image, f);
    assert(image.subset_of(ids)) by {
        assert forall|p: int| image.contains(p) implies ids.contains(p) by {
            let n = choose|n: int| ids.contains(n) && #[trigger] f(n) == p;
            lemma_veb_position_range(n as nat, h);
        }
    }
    if image =~= ids {
    } else {
        let missing = choose|p: int| ids.contains(p) && !image.contains(p);
        lemma_len_subset(image, ids.remove(missing));
        assert(ids.remove(missing).len() == ids.len() - 1);
        assert(false);
    }
}

/// A second form of the van Emde Boas address, indexed by in-order rank:
/// node `n` of a tree of height `h` splits on the low `bh` digits of `n`.
pub open spec fn veb_index_spec(n: nat, h: nat) -> nat
    decreases h,
    via veb_index_decreases
{
    if h <= 1 {
        n
    } else {
        let bh = ceil_pow2(h / 2);
        let th = (h - bh) as nat;
        let top_num = n / pow2(bh);
        let bottom_num = n % pow2(bh);
        if bottom_num == 0 {
            veb_index_spec(top_num, th)
        } else {
            ((pow2(th) - 1) + top_num * (pow2(bh) - 1) + veb_index_spec(bottom_num, bh)) as nat
        }
    }
}

#[via_fn]
proof fn veb_index_decreases(n: nat, h: nat) {
    if h >= 2 {
        lemma_half_height(h);
    }
}

proof fn lemma_half_height(h: nat)
    requires
        h >= 2,
    ensures
        1 <= ceil_pow2(h / 2),
        ceil_pow2(h / 2) <= h - 1,
{
    lemma_ceil_pow2(h / 2);
    if h / 2 >= 2 {
        assert(ceil_pow2(h / 2) <= 2 * (h / 2) - 2);
    }
}

pub fn pow2_exec(k: usize) -> (r: usize)
    requires
        pow2(k as nat) <= usize::MAX,
    ensures
        r == pow2(k as nat),
{
    let mut r: usize = 1;
    let mut i: usize = 0;
    proof {
        vstd::arithmetic::power2::lemma2_to64();
    }
    while i < k
        invariant
            i <= k,
            r == pow2(i as nat),
            pow2(k as nat) <= usize::MAX,
        decreases k - i,
    {
        proof {
            lemma_pow2_le((i + 1) as nat, k as nat);
            vstd::arithmetic::power2::lemma_pow2_unfold((i + 1) as nat);
        }
        r = r * 2;
        i = i + 1;
    }
    r
}

pub fn ceil_pow2_exec(x: usize) -> (r: usize)
    requires
        2 * x <= usize::MAX,
    ensures
        r == ceil_pow2(x as nat),
    decreases x,
{
    if x <= 1 {
        1
    } else {
        let half = (x + 1) / 2;
        proof {
            lemma_ceil_pow2(half as nat);
        }
        2 * ceil_pow2_exec(half)
    }
}

pub fn compute_node_id_internal(n: usize, d: usize, height: usize) -> (r: usize)
    requires
        1 <= d <= height,
        pow2((d - 1) as nat) <= n < pow2(d as nat),
        pow2(height as nat) <= usize::MAX,
    ensures
        r == veb_pos(n as nat, d as nat, height as nat),
        1 <= r <= pow2(height as nat) - 1,
    decreases height,
{
    proof {
        lemma_veb_pos_range(n as nat, d as nat, height as nat);
        lemma_pow2_pos((d - 1) as nat);
    }
    if height < 3 {
        n
    } else {
        proof {
            lemma_bottom_height(height as nat);
            lemma_pow2_above(height as nat);
        }
        let h2 = ceil_pow2_exec((height + 1) / 2);
        let h1 = height - h2;
        proof {
            lemma_pow2_le(h1 as nat, height as nat);
            lemma_pow2_le(h2 as nat, height as nat);
        }
        if d <= h1 {
            compute_node_id_internal(n, d, h1)
        } else {
            let d1 = d - h1 - 1;
            proof {
                lemma_pow2_le(d1 as nat, height as nat);
                lemma_pow2_div_range(n as nat, d as nat, d1 as nat);
                assert(pow2(((d - 1 - d1)) as nat) == pow2(h1 as nat));
                assert(pow2(((d - d1)) as nat) == pow2((h1 + 1) as nat));
                vstd::arithmetic::power2::lemma_pow2_unfold((h1 + 1) as nat);
                lemma_pow2_le((d1 + 1) as nat, height as nat);
            }
            let pd = pow2_exec(d1);
            let p1 = pow2_exec(h1);
            let p2 = pow2_exec(h2);
            proof {
                lemma_pow2_pos(d1 as nat);
            }
            let s = n / pd - p1;
            let nn = pd + n % pd;
            proof {
                assert(pow2(((d - h1) - 1) as nat) <= nn as nat && (nn as nat) < pow2(
                    (d - h1) as nat,
                )) by {
                    vstd::arithmetic::power2::lemma_pow2_unfold((d - h1) as nat);
                }
                lemma_pow2_adds(h1 as nat, h2 as nat);
            }
            let rec = compute_node_id_internal(nn, d - h1, h2);
            proof {
                let a = p1 as int;
                let b = p2 as int;
                assert((a - 1) + (b - 1) * (s as int) + (rec as int) <= a * b - 1)
                    by (nonlinear_arith)
                    requires
                        0 <= s as int <= a - 1,
                        1 <= rec as int <= b - 1,
                        a >= 1,
                        b >= 1,
                ;
                assert((b - 1) * (s as int) >= 0) by (nonlinear_arith)
                    requires
                        b >= 1,
                        s as int >= 0,
                ;
            }
            p1 - 1 + (p2 - 1) * s + rec
        }
    }
}

#[verifier::loop_isolation(false)]
pub fn compute_node_id(n: usize, height: usize) -> (r: usize)
    requires
        1 <= n < pow2(height as nat),
        1 <= height,
        pow2(height as nat) <= usize::MAX,
    ensures
        r == veb_position(n as nat, height as nat),
        1 <= r <= pow2(height as nat) - 1,
{
    proof {
        lemma_bit_len(n as nat);
        if bit_len(n as nat) > height as nat {
            lemma_pow2_le(height as nat, (bit_len(n as nat) - 1) as nat);
            assert(false);
        }
    }
    if height < 3 {
        proof {
            lemma_veb_position_range(n as nat, height as nat);
        }
        n
    } else {
        let mut d: usize = 1;
        let mut m: usize = n;
        proof {
            lemma_pow2_above(height as nat);
        }
        while m > 1
            invariant
                m >= 1,
                d >= 1,
                bit_len(m as nat) >= 1,
                d + bit_len(m as nat) == 1 + bit_len(n as nat),
            decreases m,
        {
            proof {
                assert(bit_len((m / 2) as nat) >= 1) by {
                    if m / 2 >= 1 {
                        assert(bit_len((m / 2) as nat) == 1 + bit_len((m / 4) as nat));
                    }
                }
            }
            assert(bit_len(m as nat) == 1 + bit_len((m / 2) as nat));
            m = m / 2;
            d = d + 1;
        }
        assert(bit_len(1nat) == 1 + bit_len(0nat));
        assert(d == bit_len(n as nat));
        compute_node_id_internal(n, d, height)
    }
}

/// The van Emde Boas address of in-order rank `n` in a tree of height
/// `height`.
pub fn veb_index(n: usize, height: usize) -> (r: usize)
    requires
        1 <= n < pow2(height as nat),
        pow2(height as nat) <= usize::MAX,
    ensures
        r == veb_index_spec(n as nat, height as nat),
        1 <= r <= pow2(height as nat) - 1,
    decreases height,
{
    if height <= 1 {
        n
    } else {
        proof {
            lemma_half_height(height as nat);
            lemma_pow2_above(height as nat);
        }
        let bh = ceil_pow2_exec(height / 2);
        let th = height - bh;
        proof {
            lemma_pow2_le(bh as nat, height as nat);
            lemma_pow2_le(th as nat, height as nat);
            lemma_pow2_pos(bh as nat);
            lemma_pow2_pos(th as nat);
            lemma_pow2_adds(th as nat, bh as nat);
        }
        let pb = pow2_exec(bh);
        let pt = pow2_exec(th);
        let top_num = n / pb;
        let bottom_num = n % pb;
        proof {
            assert((n as int) < (pb as int) * (pt as int)) by {
                vstd::arithmetic::mul::lemma_mul_is_commutative(pb as int, pt as int);
            }
            lemma_multiply_divide_lt(n as int, pb as int, pt as int);
            lemma_mod_division_less_than_divisor(n as int, pb as int);
        }
        if bottom_num == 0 {
            proof {
                if top_num == 0 {
                    lemma_fundamental_div_mod(n as int, pb as int);
                    assert(false);
                }
            }
            veb_index(top_num, th)
        } else {
            let rec = veb_index(bottom_num, bh);
            proof {
                assert((pt as int - 1) + (top_num as int) * (pb as int - 1) + (rec as int) <= (
                pt as int) * (pb as int) - 1) by (nonlinear_arith)
                    requires
                        0 <= top_num as int <= pt as int - 1,
                        1 <= rec as int <= pb as int - 1,
                        pt as int >= 1,
                        pb as int >= 1,
                ;
                assert((top_num as int) * (pb as int - 1) >= 0) by (nonlinear_arith)
                    requires
                        top_num as int >= 0,
                        pb as int >= 1,
                ;
            }
            pt - 1 + top_num * (pb - 1) + rec
        }
    }
}

/// The power of two that `c` is.
#[verifier::loop_isolation(false)]
pub fn log2_of_pow2(c: usize) -> (k: usize)
    requires
        exists|e: nat| c == pow2(e),
    ensures
        c == pow2(k as nat),
{
    let ghost e0 = choose|e: nat| c == pow2(e);
    let mut k: usize = 0;
    let mut m: usize = c;
    let ghost mut em = e0;
    proof {
        lemma_pow2_pos(e0);
        lemma_pow2_above(e0);
    }
    while m > 1
        invariant
            m == pow2(em),
            m >= 1,
            c == pow2(em + k as nat),
            em + k as nat == e0,
        decreases m,
    {
        proof {
            if em == 0 {
                vstd::arithmetic::power2::lemma2_to64();
                assert(false);
            }
            vstd::arithmetic::power2::lemma_pow2_unfold(em);
            lemma_pow2_pos((em - 1) as nat);
            em = (em - 1) as nat;
        }
        m = m / 2;
        k = k + 1;
    }
    proof {
        if em != 0 {
            lemma_pow2_le(1, em);
            vstd::arithmetic::power2::lemma2_to64();
        }
    }
    k
}

} // verus!
