use vstd::prelude::*;
use vstd::wrapping::i16_specs::{wrapping_add, wrapping_sub};
use crate::network::{add_feats, sub_feats, Network};

verus! {

/// An integer taken modulo 2^16 into the range of `i16`.
pub open spec fn wrap16(x: int) -> int {
    let m = x % 65536;
    if m >= 32768 {
        m - 65536
    } else {
        m
    }
}

/// Wrapping is the identity on the range of `i16`.
pub proof fn lemma_wrap16_small(x: int)
    requires
        -32768 <= x <= 32767,
    ensures
        wrap16(x) == x,
{
    if x >= 0 {
        vstd::arithmetic::div_mod::lemma_fundamental_div_mod_converse(x, 65536, 0, x);
    } else {
        vstd::arithmetic::div_mod::lemma_fundamental_div_mod_converse(x, 65536, -1, x + 65536);
    }
}

/// Wrapping depends only on the value modulo 2^16, and stays in the range of `i16`.
pub proof fn lemma_wrap16_mod(x: int, y: int)
    requires
        x % 65536 == y % 65536,
    ensures
        wrap16(x) == wrap16(y),
{
}

/// A wrapped value is congruent to the value.
pub proof fn lemma_wrap16_congruent(x: int)
    ensures
        wrap16(x) % 65536 == x % 65536,
        -32768 <= wrap16(x) <= 32767,
{
    let m = x % 65536;
    vstd::arithmetic::div_mod::lemma_mod_bound(x, 65536);
    if m >= 32768 {
        vstd::arithmetic::div_mod::lemma_fundamental_div_mod_converse(m - 65536, 65536, -1, m);
        vstd::arithmetic::div_mod::lemma_mod_twice(x, 65536);
    } else {
        vstd::arithmetic::div_mod::lemma_mod_twice(x, 65536);
    }
}

/// Wrapping an inner sum first changes nothing.
pub proof fn lemma_wrap16_inner(x: int, y: int)
    ensures
        wrap16(wrap16(x) + y) == wrap16(x + y),
{
    lemma_wrap16_congruent(x);
    vstd::arithmetic::div_mod::lemma_add_mod_noop(wrap16(x), y, 65536);
    vstd::arithmetic::div_mod::lemma_add_mod_noop(x, y, 65536);
}

/// Sixteen-bit wrapping addition is addition modulo 2^16.
pub proof fn lemma_wrapping_add(a: i16, b: i16)
    ensures
        wrapping_add(a, b) as int == wrap16(a + b),
{
    let s = a + b;
    if s > 32767 {
        lemma_wrap16_small(s - 65536);
        lemma_wrap16_mod(s, s - 65536);
        vstd::arithmetic::div_mod::lemma_mod_sub_multiples_vanish(s, 65536);
    } else if s < -32768 {
        lemma_wrap16_small(s + 65536);
        vstd::arithmetic::div_mod::lemma_mod_add_multiples_vanish(s, 65536);
        lemma_wrap16_mod(s, s + 65536);
    } else {
        lemma_wrap16_small(s);
    }
}

/// Sixteen-bit wrapping subtraction is subtraction modulo 2^16.
pub proof fn lemma_wrapping_sub(a: i16, b: i16)
    ensures
        wrapping_sub(a, b) as int == wrap16(a - b),
{
    let s = a - b;
    if s > 32767 {
        lemma_wrap16_small(s - 65536);
        vstd::arithmetic::div_mod::lemma_mod_sub_multiples_vanish(s, 65536);
        lemma_wrap16_mod(s, s - 65536);
    } else if s < -32768 {
        lemma_wrap16_small(s + 65536);
        vstd::arithmetic::div_mod::lemma_mod_add_multiples_vanish(s, 65536);
        lemma_wrap16_mod(s, s + 65536);
    } else {
        lemma_wrap16_small(s);
    }
}

/// The first `n` values of `g`, summed.
pub open spec fn sum_to(g: spec_fn(int) -> int, n: int) -> int
    decreases n,
{
    if n <= 0 {
        0
    } else {
        sum_to(g, n - 1) + g(n - 1)
    }
}

/// Sums of functions that agree below `n` agree.
pub proof fn lemma_sum_ext(g1: spec_fn(int) -> int, g2: spec_fn(int) -> int, n: int)
    requires
        forall|i: int| 0 <= i < n ==> #[trigger] g1(i) == g2(i),
    ensures
        sum_to(g1, n) == sum_to(g2, n),
    decreases n,
{
    if n > 0 {
        lemma_sum_ext(g1, g2, n - 1);
    }
}

/// Changing a function at one point changes its sum by the change there.
pub proof fn lemma_sum_point(g1: spec_fn(int) -> int, g2: spec_fn(int) -> int, t: int, n: int)
    requires
        0 <= t < n,
        forall|i: int| 0 <= i < n && i != t ==> #[trigger] g1(i) == g2(i),
    ensures
        sum_to(g2, n) == sum_to(g1, n) + g2(t) - g1(t),
    decreases n,
{
    if n - 1 > t {
        lemma_sum_point(g1, g2, t, n - 1);
    } else {
        lemma_sum_ext(g1, g2, n - 1);
    }
}

/// The sum of a sum of functions is the sum of their sums.
pub proof fn lemma_sum_linear(g: spec_fn(int) -> int, g1: spec_fn(int) -> int, g2: spec_fn(int) -> int, n: int)
    requires
        forall|i: int| 0 <= i < n ==> #[trigger] g(i) == g1(i) + g2(i),
    ensures
        sum_to(g, n) == sum_to(g1, n) + sum_to(g2, n),
    decreases n,
{
    if n > 0 {
        lemma_sum_linear(g, g1, g2, n - 1);
    }
}

/// A function that is zero below `n` sums to zero.
pub proof fn lemma_sum_zero(g: spec_fn(int) -> int, n: int)
    requires
        forall|i: int| 0 <= i < n ==> #[trigger] g(i) == 0,
    ensures
        sum_to(g, n) == 0,
    decreases n,
{
    if n > 0 {
        lemma_sum_zero(g, n - 1);
    }
}

/// A double sum can be taken in either order.
pub proof fn lemma_sum_swap(f: spec_fn(int, int) -> int, m: int, n: int)
    requires
        0 <= m,
        0 <= n,
    ensures
        sum_to(|a: int| sum_to(|b: int| f(a, b), n), m) == sum_to(|b: int| sum_to(|a: int| f(a, b), m), n),
    decreases m,
{
    if m > 0 {
        lemma_sum_swap(f, m - 1, n);
        let g = |b: int| sum_to(|a: int| f(a, b), m);
        let g1 = |b: int| sum_to(|a: int| f(a, b), m - 1);
        let g2 = |b: int| f(m - 1, b);
        assert forall|i: int| 0 <= i < n implies #[trigger] g(i) == g1(i) + g2(i) by {
            assert(sum_to(|a: int| f(a, i), m) == sum_to(|a: int| f(a, i), m - 1) + f(m - 1, i));
        }
        lemma_sum_linear(g, g1, g2, n);
        assert(sum_to(|a: int| sum_to(|b: int| f(a, b), n), m) == sum_to(|a: int| sum_to(|b: int| f(a, b), n), m - 1)
            + sum_to(|b: int| f(m - 1, b), n));
    } else {
        lemma_sum_zero(|b: int| sum_to(|a: int| f(a, b), m), n);
    }
}

/// Lane `j` of the weights of the first `n` features of `feats`, summed.
pub open spec fn feats_sum(net: &Network, feats: Seq<u16>, j: int, n: int) -> int
    decreases n,
{
    if n <= 0 {
        0
    } else {
        feats_sum(net, feats, j, n - 1) + net.feature_weights@[feats[n - 1] as int].vals[j]
    }
}

/// Adding features lane by lane with wrapping adds their summed weights modulo 2^16.
pub proof fn lemma_add_feats(net: &Network, v: i16, feats: Seq<u16>, j: int, n: int)
    ensures
        add_feats(net, v, feats, j, n) as int == wrap16(v + feats_sum(net, feats, j, n)),
    decreases n,
{
    if n <= 0 {
        lemma_wrap16_small(v as int);
    } else {
        lemma_add_feats(net, v, feats, j, n - 1);
        let w = net.feature_weights@[feats[n - 1] as int].vals[j];
        lemma_wrapping_add(add_feats(net, v, feats, j, n - 1), w);
        lemma_wrap16_inner(v + feats_sum(net, feats, j, n - 1), w as int);
    }
}

/// Subtracting features lane by lane with wrapping subtracts their summed weights modulo 2^16.
pub proof fn lemma_sub_feats(net: &Network, v: i16, feats: Seq<u16>, j: int, n: int)
    ensures
        sub_feats(net, v, feats, j, n) as int == wrap16(v - feats_sum(net, feats, j, n)),
    decreases n,
{
    if n <= 0 {
        lemma_wrap16_small(v as int);
    } else {
        lemma_sub_feats(net, v, feats, j, n - 1);
        let w = net.feature_weights@[feats[n - 1] as int].vals[j];
        lemma_wrapping_sub(sub_feats(net, v, feats, j, n - 1), w);
        lemma_wrap16_inner(v - feats_sum(net, feats, j, n - 1), -(w as int));
    }
}

/// Pushing a feature adds its weight to the sum; the sum of a prefix is unchanged.
pub proof fn lemma_feats_sum_push(net: &Network, feats: Seq<u16>, x: u16, j: int)
    ensures
        feats_sum(net, feats.push(x), j, (feats.len() + 1) as int) == feats_sum(net, feats, j, feats.len() as int)
            + net.feature_weights@[x as int].vals[j],
{
    lemma_feats_sum_prefix(net, feats, feats.push(x), j, feats.len() as int);
}

/// Sums of the first `n` features of two sequences that agree there are equal.
proof fn lemma_feats_sum_prefix(net: &Network, a: Seq<u16>, b: Seq<u16>, j: int, n: int)
    requires
        n <= a.len(),
        n <= b.len(),
        forall|i: int| 0 <= i < n ==> a[i] == b[i],
    ensures
        feats_sum(net, a, j, n) == feats_sum(net, b, j, n),
    decreases n,
{
    if n > 0 {
        lemma_feats_sum_prefix(net, a, b, j, n - 1);
    }
}

} // verus!
